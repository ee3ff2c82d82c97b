use vstd::prelude::*;
use crate::chunks::{
    chunk_file_name, chunks_from, dds_header, extract_chunks, kept, lemma_chunks_from_complete,
    lemma_located_chunks_well_formed,
    locate_dds_chunks, occurs_at, pof0_stop_sign, replace_chunks, replacement_views,
    prev_end, spans_in_order, splice_from, spliced, ChunkError, ChunkFile,
};

verus! {

/// Why the textures of an AFB container could not be extracted.
#[derive(Debug, Clone, Copy, PartialEq, Eq, Structural)]
pub enum AfbError {
    /// The container holds no DDS texture.
    NoDdsChunks,
}

/// The base name of the extracted files: the container's file stem, or
/// "chunk" when it has none.
pub open spec fn afb_base_name(file_stem: Option<&str>) -> Seq<char> {
    match file_stem {
        Some(s) => s@,
        None => seq!['c', 'h', 'u', 'n', 'k'],
    }
}

/// The extension of the extracted files.
pub open spec fn dds_extension() -> Seq<char> {
    seq!['.', 'd', 'd', 's']
}

/// The DDS textures of an AFB container as files to write: texture `i` is
/// named `{stem}_{i + 1:04}.dds` (the stem defaults to "chunk") and holds
/// the bytes of the `i`-th chunk that `locate_dds_chunks` finds. A container
/// without textures is an error.
pub fn extract_afb(data: &[u8], file_stem: Option<&str>) -> (r: Result<Vec<ChunkFile>, AfbError>)
    ensures
        ({
            let c = chunks_from(data@, dds_header(), pof0_stop_sign(), 0);
            &&& c.len() == 0 ==> r == Err::<Vec<ChunkFile>, AfbError>(AfbError::NoDdsChunks)
            &&& c.len() > 0 ==> (r matches Ok(files) && files@.len() == c.len() && forall|i: int|
                0 <= i < c.len() ==> {
                    &&& (#[trigger] files@[i]).name@ == chunk_file_name(
                        afb_base_name(file_stem),
                        i as nat,
                        dds_extension(),
                    )
                    &&& files@[i].bytes@ == data@.subrange(c[i].0 as int, c[i].1 as int)
                })
        }),
{
    let chunks = locate_dds_chunks(data);
    if chunks.len() == 0 {
        return Err(AfbError::NoDdsChunks);
    }
    let ghost c = chunks@;
    let data_len = data.len();
    assert forall|i: int| 0 <= i < c.len() implies #[trigger] c[i].0 <= c[i].1 <= data@.len() by {
        lemma_located_chunks_well_formed(data@, dds_header(), pof0_stop_sign());
        assert(occurs_at(data@, dds_header(), c[i].0 as int));
    }
    proof {
        reveal_strlit("chunk");
        reveal_strlit(".dds");
    }
    let base_name = match file_stem {
        Some(s) => s,
        None => "chunk",
    };
    assert(base_name@ == afb_base_name(file_stem));
    assert(".dds"@ == dds_extension());
    Ok(extract_chunks(data, base_name, ".dds", chunks.as_slice()))
}

/// A stage container to fill in: the stage file with the places of its
/// background and effect textures, the stand-in effect texture used when
/// there is none, and the companion file written as it is.
pub struct StageTemplate {
    pub st: Vec<u8>,
    pub st_chunks: Vec<(usize, usize)>,
    pub fx_dummy: Vec<u8>,
    pub nf: Vec<u8>,
}

/// Whether any effect input is given.
pub fn wants_fx_texture(present: &[bool]) -> (r: bool)
    ensures
        r == exists|i: int| 0 <= i < present@.len() && #[trigger] present@[i],
{
    let mut i: usize = 0;
    while i < present.len()
        invariant
            0 <= i <= present@.len(),
            forall|k: int| 0 <= k < i ==> !#[trigger] present@[k],
        decreases present@.len() - i,
    {
        if present[i] {
            return true;
        }
        i += 1;
    }
    false
}

/// The effect texture of a stage: the converted one, or the template's
/// stand-in when there is none.
pub open spec fn stage_fx(template: StageTemplate, fx_dds: Option<Seq<u8>>) -> Seq<u8> {
    match fx_dds {
        Some(f) => f,
        None => template.fx_dummy@,
    }
}

/// What replaces the two chunks of the stage file: the background texture,
/// then the effect texture.
pub open spec fn stage_replacements(template: StageTemplate, bg_dds: Seq<u8>, fx_dds: Option<Seq<u8>>) -> Seq<
    Option<Seq<u8>>,
> {
    seq![Some(bg_dds), Some(stage_fx(template, fx_dds))]
}

/// The stage file: the template's stage file with its first chunk replaced
/// by the background texture and its second by the effect texture (the
/// template's stand-in when there is none).
pub fn convert_stage(template: &StageTemplate, bg_dds: &[u8], fx_dds: Option<&[u8]>) -> (r: Result<
    Vec<u8>,
    ChunkError,
>)
    requires
        template.st_chunks@.len() <= 2 ==> spans_in_order(
            template.st@.len() as int,
            template.st_chunks@,
            seq![false, false],
        ),
    ensures
        template.st_chunks@.len() > 2 ==> r == Err::<Vec<u8>, ChunkError>(
            ChunkError::TooFewReplacements { replacements: 2, chunks: template.st_chunks@.len() as usize },
        ),
        template.st_chunks@.len() <= 2 ==> (r matches Ok(out) && out@ == spliced(
            template.st@,
            template.st_chunks@,
            stage_replacements(
                *template,
                bg_dds@,
                match fx_dds {
                    Some(f) => Some(f@),
                    None => None,
                },
            ),
        )),
        template.st_chunks@.len() == 2 ==> (r matches Ok(out) && out@ == template.st@.subrange(
            0,
            template.st_chunks@[0].0 as int,
        ) + bg_dds@ + template.st@.subrange(
            template.st_chunks@[0].1 as int,
            template.st_chunks@[1].0 as int,
        ) + match fx_dds {
            Some(f) => f@,
            None => template.fx_dummy@,
        } + template.st@.subrange(template.st_chunks@[1].1 as int, template.st@.len() as int)),
{
    let fx_buffer: &[u8] = match fx_dds {
        Some(f) => f,
        None => template.fx_dummy.as_slice(),
    };
    let replacements: [Option<&[u8]>; 2] = [Some(bg_dds), Some(fx_buffer)];
    let reps = replacements.as_slice();
    let ghost fx_view = match fx_dds {
        Some(f) => Some(f@),
        None => None,
    };
    assert(fx_buffer@ == stage_fx(*template, fx_view));
    assert(replacement_views(reps@) =~= seq![Some(bg_dds@), Some(stage_fx(*template, fx_view))]);
    assert(kept(replacement_views(reps@)) =~= seq![false, false]);
    let r = replace_chunks(template.st.as_slice(), template.st_chunks.as_slice(), reps);
    assert(replacement_views(reps@) == stage_replacements(*template, bg_dds@, fx_view));
    if template.st_chunks.len() == 2 {
        proof {
            lemma_stage_file_bytes(*template, bg_dds@, fx_view);
        }
    }
    r
}

/// A stage file with two texture places is the template's bytes before the
/// first place, the background texture, the bytes between the places, the
/// effect texture (the given one when there is one, the template's stand-in
/// only when there is none), and the bytes after the second place.
pub proof fn lemma_stage_file_bytes(template: StageTemplate, bg_dds: Seq<u8>, fx_dds: Option<Seq<u8>>)
    requires
        template.st_chunks@.len() == 2,
    ensures
        ({
            let st = template.st@;
            let c = template.st_chunks@;
            spliced(st, c, stage_replacements(template, bg_dds, fx_dds)) == st.subrange(0, c[0].0 as int)
                + bg_dds + st.subrange(c[0].1 as int, c[1].0 as int) + match fx_dds {
                Some(f) => f,
                None => template.fx_dummy@,
            } + st.subrange(c[1].1 as int, st.len() as int)
        }),
{
    let st = template.st@;
    let c = template.st_chunks@;
    let reps = stage_replacements(template, bg_dds, fx_dds);
    let fx = match fx_dds {
        Some(f) => f,
        None => template.fx_dummy@,
    };
    assert(reps[0] == Some(bg_dds));
    assert(reps[1] == Some(fx));
    assert(splice_from(st, c, reps, 2, c[1].1 as int) == st.subrange(c[1].1 as int, st.len() as int));
    assert(splice_from(st, c, reps, 1, c[0].1 as int) == st.subrange(c[0].1 as int, c[1].0 as int) + fx
        + st.subrange(c[1].1 as int, st.len() as int));
    assert(spliced(st, c, reps) =~= st.subrange(0, c[0].0 as int) + bg_dds + st.subrange(
        c[0].1 as int,
        c[1].0 as int,
    ) + fx + st.subrange(c[1].1 as int, st.len() as int));
}


/// A stage file filled in with a background texture that starts with a DDS
/// header holds at least one texture to extract, so `extract_afb` succeeds
/// on it.
pub proof fn lemma_stage_has_texture(template: StageTemplate, bg_dds: Seq<u8>, fx_dds: Option<Seq<u8>>)
    requires
        1 <= template.st_chunks@.len() <= 2,
        spans_in_order(template.st@.len() as int, template.st_chunks@, seq![false, false]),
        occurs_at(bg_dds, dds_header(), 0),
        spliced(template.st@, template.st_chunks@, stage_replacements(template, bg_dds, fx_dds)).len()
            <= usize::MAX,
    ensures
        chunks_from(
            spliced(template.st@, template.st_chunks@, stage_replacements(template, bg_dds, fx_dds)),
            dds_header(),
            pof0_stop_sign(),
            0,
        ).len() > 0,
{
    let st = template.st@;
    let c = template.st_chunks@;
    let reps = stage_replacements(template, bg_dds, fx_dds);
    let out = spliced(st, c, reps);
    let s0 = c[0].0 as int;
    assert(prev_end(c, 0) <= c[0].0 <= st.len());
    let prefix = st.subrange(0, s0);
    let rest = splice_from(st, c, reps, 1, c[0].1 as int);
    assert(out == prefix + bg_dds + rest);
    assert(out.subrange(s0, s0 + 4) =~= bg_dds.subrange(0, 4));
    assert(occurs_at(out, dds_header(), s0));
    lemma_chunks_from_complete(out, dds_header(), pof0_stop_sign(), 0);
}

} // verus!
