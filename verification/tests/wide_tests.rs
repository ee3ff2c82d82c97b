use afb_dds::wide::{
    set_error_msg, wchar_arr_count, wchar_arr_to_vec, wchar_to_string, WideError, FAILURE, SUCCESS,
};

#[test]
fn decodes_plain_and_surrogate_pairs() {
    let units: Vec<u16> = "héllo 😀".encode_utf16().collect();
    assert_eq!(wchar_to_string(&units).unwrap(), "héllo 😀");
    assert_eq!(wchar_to_string(&[0xD83D, 0xDE00]).unwrap(), "😀");
    assert_eq!(wchar_to_string(&[]).unwrap(), "");
}

#[test]
fn rejects_unpaired_surrogates() {
    assert_eq!(wchar_to_string(&[0xD800]), Err(WideError::InvalidUtf16));
    assert_eq!(wchar_to_string(&[0xDC00, 0x41]), Err(WideError::InvalidUtf16));
    assert_eq!(wchar_to_string(&[0xD800, 0x41]), Err(WideError::InvalidUtf16));
}

#[test]
fn list_length_rules() {
    assert_eq!(wchar_arr_count(-1, false), Err(WideError::InvalidLength(-1)));
    assert_eq!(wchar_arr_count(-1, true), Err(WideError::InvalidLength(-1)));
    assert_eq!(wchar_arr_count(3, true), Ok(0));
    assert_eq!(wchar_arr_count(0, false), Ok(0));
    assert_eq!(wchar_arr_count(3, false), Ok(3));
}

#[test]
fn list_entries_decode_or_stay_missing() {
    let items = vec![Some(vec![0x61, 0x62]), None, Some(vec![])];
    assert_eq!(
        wchar_arr_to_vec(&items).unwrap(),
        vec![Some("ab".to_string()), None, Some(String::new())]
    );
    let bad = vec![Some(vec![0x61]), Some(vec![0xDC00])];
    assert_eq!(wchar_arr_to_vec(&bad), Err(WideError::InvalidUtf16));
}

#[test]
fn error_message_is_cut_to_the_buffer_and_terminated() {
    assert_eq!(set_error_msg("abc", 0), None);
    assert_eq!(set_error_msg("abc", -5), None);
    assert_eq!(set_error_msg("abc", 1), Some(vec![0]));
    assert_eq!(set_error_msg("abc", 3), Some(vec![0x61, 0x62, 0]));
    assert_eq!(set_error_msg("abc", 10), Some(vec![0x61, 0x62, 0x63, 0]));
    assert_eq!(set_error_msg("😀", 10), Some(vec![0xD83D, 0xDE00, 0]));
}

#[test]
fn encoded_message_decodes_back() {
    let msg = "Invalid dimensions: width and height must be greater than 0 ✓";
    let units = set_error_msg(msg, 1000).unwrap();
    assert_eq!(units.last(), Some(&0));
    assert_eq!(wchar_to_string(&units[..units.len() - 1]).unwrap(), msg);
}

#[test]
fn status_codes() {
    assert_eq!(SUCCESS, 0);
    assert_eq!(FAILURE, 1);
}
