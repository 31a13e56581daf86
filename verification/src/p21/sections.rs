//! How the data sections of a file read divide its instances.
use vstd::prelude::*;

use super::exchange::{DataSection, Instance};
use super::lexer::{start_of, Span, TokenKind};
use super::parser::{
    advances, cur, file_spec, is_kw, kept, sp_data, sp_expect, sp_instance, sp_instances, sp_next, sp_params, sp_peek,
    sp_preamble, sp_sections, sp_step, Expect, ExtraView, Frame, PErr, PState, SectionStep,
};

verus! {

/// True if `sections` cover instances `0..n` one after another: the first
/// starts at 0, each starts where the one before ends, and the last ends
/// at `n`; with no sections there are no instances.
pub open spec fn tiles(sections: Seq<DataSection>, n: usize) -> bool {
    if sections.len() == 0 {
        n == 0
    } else {
        &&& sections[0].first == 0
        &&& sections.last().last == n
        &&& forall|i: int| 0 <= i < sections.len() - 1 ==> #[trigger] sections[i].last == sections[i + 1].first
    }
}

proof fn lemma_sp_instances(
    src: Seq<u8>,
    s: PState,
    ins: Seq<Instance>,
    ix: Map<u64, usize>,
    params_start: usize,
    params_end: usize,
    first: usize,
)
    ensures
        sp_instances(src, s, ins, ix, params_start, params_end, first) matches Ok(d) ==> d.section.first == first
            && d.section.last == d.instances.len() as usize,
    decreases src.len() - cur(s),
{
    if let Ok((s1, token)) = sp_next(src, s) {
        if let TokenKind::InstanceName(id) = token.kind {
            if let Ok((s2, inst)) = sp_instance(src, s1, token, id) {
                if !ix.contains_key(id) && advances(src, s, s2) {
                    lemma_sp_instances(
                        src,
                        s2,
                        ins.push(inst),
                        ix.insert(id, ins.len() as usize),
                        params_start,
                        params_end,
                        first,
                    );
                }
            }
        }
    }
}

proof fn lemma_sp_sections(
    src: Seq<u8>,
    s: PState,
    header: (usize, usize, Span),
    sections: Seq<DataSection>,
    extras: Seq<ExtraView>,
    ins: Seq<Instance>,
    ix: Map<u64, usize>,
)
    requires
        tiles(sections, ins.len() as usize),
    ensures
        sp_sections(src, s, header, sections, extras, ins, ix) matches Ok(f) ==> tiles(
            f.sections,
            f.instances.len() as usize,
        ),
    decreases src.len() - cur(s),
{
    reveal(sp_data);
    if let Ok((s1, token)) = sp_next(src, s) {
        if is_kw(src, token, "DATA"@) {
            let params_start = s1.tokens.len();
            if let Ok(s1p) = sp_peek(src, s1) {
                let head: core::result::Result<PState, PErr> = match s1p.peeked {
                    Some(t) => if t.kind == TokenKind::LeftParen {
                        match sp_next(src, s1p) {
                            Err(e) => Err(e),
                            Ok((s2, open)) => sp_params(src, kept(s2, open), seq![Frame::List], Expect::ParamOrClose),
                        }
                    } else {
                        Ok(s1p)
                    },
                    None => Ok(s1p),
                };
                if let Ok(s4) = head {
                    if let Ok((s5, _)) = sp_expect(src, s4, TokenKind::Semicolon) {
                        lemma_sp_instances(
                            src,
                            s5,
                            ins,
                            ix,
                            params_start as usize,
                            s4.tokens.len() as usize,
                            ins.len() as usize,
                        );
                    }
                }
            }
        }
    }
    match sp_step(src, s, header, sections, extras, ins, ix) {
        SectionStep::More(s2, sections2, extras2, ins2, ix2) => if advances(src, s, s2) {
            if sections2.len() > sections.len() {
                let d = sections2.last();
                assert(sections2.drop_last() == sections);
                assert forall|i: int| 0 <= i < sections2.len() - 1 implies #[trigger] sections2[i].last
                    == sections2[i + 1].first by {
                    if i + 1 < sections.len() {
                        assert(sections2[i] == sections[i]);
                        assert(sections2[i + 1] == sections[i + 1]);
                    } else {
                        assert(sections2[i] == sections[i]);
                    }
                }
            }
            lemma_sp_sections(src, s2, header, sections2, extras2, ins2, ix2);
        },
        _ => {},
    }
}

/// The data sections of a file read cover its instances one after another
/// in file order, each instance in exactly one section.
pub proof fn lemma_sections_tile_instances(src: Seq<u8>)
    ensures
        file_spec(src) matches Ok(f) ==> tiles(f.sections, f.instances.len() as usize),
{
    let s0 = PState { pos: start_of(src), peeked: None, tokens: Seq::empty() };
    if let Ok((s6, header)) = sp_preamble(src, s0) {
        lemma_sp_sections(src, s6, header, Seq::empty(), Seq::empty(), Seq::empty(), Map::empty());
    }
}

} // verus!
