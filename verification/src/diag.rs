//! Diagnostics: spans, stages, error kinds, and rendering to readable text.
use vstd::prelude::*;

verus! {

/// Byte range in the source text; `lo` is inclusive, `hi` exclusive.
#[derive(Clone, Copy, PartialEq, Eq, Structural, Debug)]
pub struct Span {
    pub lo: usize,
    pub hi: usize,
}

/// The pipeline stage that produced a diagnostic.
#[derive(Clone, Copy, PartialEq, Eq, Structural, Debug)]
pub enum Stage {
    Lex,
    Parse,
    Validate,
    Encode,
}

/// What went wrong. Reference cycles carry the chain of fragment names;
/// depth overruns carry the configured limit and the depth that was found
/// (saturated at one past the limit).
#[derive(Clone, Debug, PartialEq, Eq)]
pub enum DiagKind {
    UnterminatedDelimiter,
    InvalidEscape,
    UnexpectedByte,
    UnclosedBlock,
    UnexpectedToken,
    UnknownDirective,
    CyclicInclude { cycle: Vec<Vec<u8>> },
    UnknownReference { name: Vec<u8> },
    NestingTooDeep { limit: u32, actual: u64 },
    DuplicateDefinition { name: Vec<u8> },
    UnsupportedConstruct,
    PayloadTooLarge,
}

/// Mathematical model of `DiagKind`.
pub enum DiagKindV {
    UnterminatedDelimiter,
    InvalidEscape,
    UnexpectedByte,
    UnclosedBlock,
    UnexpectedToken,
    UnknownDirective,
    CyclicInclude { cycle: Seq<Seq<u8>> },
    UnknownReference { name: Seq<u8> },
    NestingTooDeep { limit: u32, actual: u64 },
    DuplicateDefinition { name: Seq<u8> },
    UnsupportedConstruct,
    PayloadTooLarge,
}

/// One reported problem: the stage it came from, its kind, and where it points.
#[derive(Clone, Debug, PartialEq, Eq)]
pub struct Diagnostic {
    pub stage: Stage,
    pub kind: DiagKind,
    pub span: Span,
}

/// Mathematical model of `Diagnostic`.
pub struct DiagV {
    pub stage: Stage,
    pub kind: DiagKindV,
    pub span: Span,
}

/// View of a list of byte strings as a sequence of byte sequences.
pub open spec fn names_view(s: Seq<Vec<u8>>) -> Seq<Seq<u8>> {
    s.map_values(|n: Vec<u8>| n@)
}

impl View for DiagKind {
    type V = DiagKindV;

    open spec fn view(&self) -> DiagKindV {
        match self {
            DiagKind::UnterminatedDelimiter => DiagKindV::UnterminatedDelimiter,
            DiagKind::InvalidEscape => DiagKindV::InvalidEscape,
            DiagKind::UnexpectedByte => DiagKindV::UnexpectedByte,
            DiagKind::UnclosedBlock => DiagKindV::UnclosedBlock,
            DiagKind::UnexpectedToken => DiagKindV::UnexpectedToken,
            DiagKind::UnknownDirective => DiagKindV::UnknownDirective,
            DiagKind::CyclicInclude { cycle } => DiagKindV::CyclicInclude {
                cycle: names_view(cycle@),
            },
            DiagKind::UnknownReference { name } => DiagKindV::UnknownReference { name: name@ },
            DiagKind::NestingTooDeep { limit, actual } => DiagKindV::NestingTooDeep {
                limit: *limit,
                actual: *actual,
            },
            DiagKind::DuplicateDefinition { name } => DiagKindV::DuplicateDefinition {
                name: name@,
            },
            DiagKind::UnsupportedConstruct => DiagKindV::UnsupportedConstruct,
            DiagKind::PayloadTooLarge => DiagKindV::PayloadTooLarge,
        }
    }
}

impl View for Diagnostic {
    type V = DiagV;

    open spec fn view(&self) -> DiagV {
        DiagV { stage: self.stage, kind: self.kind@, span: self.span }
    }
}

/// View of a list of diagnostics.
pub open spec fn diags_view(s: Seq<Diagnostic>) -> Seq<DiagV> {
    s.map_values(|d: Diagnostic| d@)
}

/// Decimal digits of `n`, most significant first.
pub open spec fn dec_spec(n: nat) -> Seq<u8>
    decreases n,
{
    if n < 10 {
        seq![(n + 48) as u8]
    } else {
        dec_spec(n / 10) + seq![(n % 10 + 48) as u8]
    }
}

/// Appends the decimal rendering of `n` to `out`.
pub fn push_dec(out: &mut Vec<u8>, n: u64)
    ensures
        final(out)@ == old(out)@ + dec_spec(n as nat),
    decreases n,
{
    if n < 10 {
        out.push((n as u8) + 48);
        proof {
            assert(out@ =~= old(out)@ + dec_spec(n as nat));
        }
    } else {
        push_dec(out, n / 10);
        out.push(((n % 10) as u8) + 48);
        proof {
            assert(out@ =~= old(out)@ + dec_spec(n as nat));
        }
    }
}

/// The bytes of `'lex'`.
pub open spec fn txt_lex() -> Seq<u8> {
    seq![108u8, 101u8, 120u8]
}

/// The bytes of `'parse'`.
pub open spec fn txt_parse() -> Seq<u8> {
    seq![112u8, 97u8, 114u8, 115u8, 101u8]
}

/// The bytes of `'validate'`.
pub open spec fn txt_validate() -> Seq<u8> {
    seq![118u8, 97u8, 108u8, 105u8, 100u8, 97u8, 116u8, 101u8]
}

/// The bytes of `'encode'`.
pub open spec fn txt_encode() -> Seq<u8> {
    seq![101u8, 110u8, 99u8, 111u8, 100u8, 101u8]
}

/// The bytes of `': '`.
pub open spec fn txt_colon() -> Seq<u8> {
    seq![58u8, 32u8]
}

/// The bytes of `' -> '`.
pub open spec fn txt_arrow() -> Seq<u8> {
    seq![32u8, 45u8, 62u8, 32u8]
}

/// The bytes of `'unterminated delimiter'`.
pub open spec fn txt_unterminated() -> Seq<u8> {
    seq![117u8, 110u8, 116u8, 101u8, 114u8, 109u8, 105u8, 110u8, 97u8, 116u8, 101u8, 100u8, 32u8, 100u8, 101u8, 108u8, 105u8, 109u8, 105u8, 116u8, 101u8, 114u8]
}

/// The bytes of `'invalid escape'`.
pub open spec fn txt_escape() -> Seq<u8> {
    seq![105u8, 110u8, 118u8, 97u8, 108u8, 105u8, 100u8, 32u8, 101u8, 115u8, 99u8, 97u8, 112u8, 101u8]
}

/// The bytes of `'unexpected byte'`.
pub open spec fn txt_byte() -> Seq<u8> {
    seq![117u8, 110u8, 101u8, 120u8, 112u8, 101u8, 99u8, 116u8, 101u8, 100u8, 32u8, 98u8, 121u8, 116u8, 101u8]
}

/// The bytes of `'unclosed block'`.
pub open spec fn txt_unclosed() -> Seq<u8> {
    seq![117u8, 110u8, 99u8, 108u8, 111u8, 115u8, 101u8, 100u8, 32u8, 98u8, 108u8, 111u8, 99u8, 107u8]
}

/// The bytes of `'unexpected token'`.
pub open spec fn txt_token() -> Seq<u8> {
    seq![117u8, 110u8, 101u8, 120u8, 112u8, 101u8, 99u8, 116u8, 101u8, 100u8, 32u8, 116u8, 111u8, 107u8, 101u8, 110u8]
}

/// The bytes of `'unknown directive'`.
pub open spec fn txt_directive() -> Seq<u8> {
    seq![117u8, 110u8, 107u8, 110u8, 111u8, 119u8, 110u8, 32u8, 100u8, 105u8, 114u8, 101u8, 99u8, 116u8, 105u8, 118u8, 101u8]
}

/// The bytes of `'cyclic reference: '`.
pub open spec fn txt_cyclic() -> Seq<u8> {
    seq![99u8, 121u8, 99u8, 108u8, 105u8, 99u8, 32u8, 114u8, 101u8, 102u8, 101u8, 114u8, 101u8, 110u8, 99u8, 101u8, 58u8, 32u8]
}

/// The bytes of `"unknown reference '"`.
pub open spec fn txt_unknown_open() -> Seq<u8> {
    seq![117u8, 110u8, 107u8, 110u8, 111u8, 119u8, 110u8, 32u8, 114u8, 101u8, 102u8, 101u8, 114u8, 101u8, 110u8, 99u8, 101u8, 32u8, 39u8]
}

/// The bytes of `"'"`.
pub open spec fn txt_quote() -> Seq<u8> {
    seq![39u8]
}

/// The bytes of `'nesting depth '`.
pub open spec fn txt_depth() -> Seq<u8> {
    seq![110u8, 101u8, 115u8, 116u8, 105u8, 110u8, 103u8, 32u8, 100u8, 101u8, 112u8, 116u8, 104u8, 32u8]
}

/// The bytes of `' exceeds limit '`.
pub open spec fn txt_exceeds() -> Seq<u8> {
    seq![32u8, 101u8, 120u8, 99u8, 101u8, 101u8, 100u8, 115u8, 32u8, 108u8, 105u8, 109u8, 105u8, 116u8, 32u8]
}

/// The bytes of `"duplicate definition '"`.
pub open spec fn txt_dup_open() -> Seq<u8> {
    seq![100u8, 117u8, 112u8, 108u8, 105u8, 99u8, 97u8, 116u8, 101u8, 32u8, 100u8, 101u8, 102u8, 105u8, 110u8, 105u8, 116u8, 105u8, 111u8, 110u8, 32u8, 39u8]
}

/// The bytes of `'unsupported construct'`.
pub open spec fn txt_unsupported() -> Seq<u8> {
    seq![117u8, 110u8, 115u8, 117u8, 112u8, 112u8, 111u8, 114u8, 116u8, 101u8, 100u8, 32u8, 99u8, 111u8, 110u8, 115u8, 116u8, 114u8, 117u8, 99u8, 116u8]
}

/// The bytes of `'payload too large'`.
pub open spec fn txt_payload() -> Seq<u8> {
    seq![112u8, 97u8, 121u8, 108u8, 111u8, 97u8, 100u8, 32u8, 116u8, 111u8, 111u8, 32u8, 108u8, 97u8, 114u8, 103u8, 101u8]
}

/// The bytes of `' at bytes '`.
pub open spec fn txt_at() -> Seq<u8> {
    seq![32u8, 97u8, 116u8, 32u8, 98u8, 121u8, 116u8, 101u8, 115u8, 32u8]
}

/// The bytes of `'..'`.
pub open spec fn txt_dots() -> Seq<u8> {
    seq![46u8, 46u8]
}

/// The names of a cycle joined with arrows.
pub open spec fn joined_names(names: Seq<Seq<u8>>) -> Seq<u8>
    decreases names.len(),
{
    if names.len() == 0 {
        Seq::empty()
    } else if names.len() == 1 {
        names[0]
    } else {
        names[0] + txt_arrow() + joined_names(names.drop_first())
    }
}

/// The wording of a diagnostic's stage.
pub open spec fn stage_text(s: Stage) -> Seq<u8> {
    match s {
        Stage::Lex => txt_lex(),
        Stage::Parse => txt_parse(),
        Stage::Validate => txt_validate(),
        Stage::Encode => txt_encode(),
    }
}

/// The wording of a diagnostic's kind.
pub open spec fn kind_text(k: DiagKindV) -> Seq<u8> {
    match k {
        DiagKindV::UnterminatedDelimiter => txt_unterminated(),
        DiagKindV::InvalidEscape => txt_escape(),
        DiagKindV::UnexpectedByte => txt_byte(),
        DiagKindV::UnclosedBlock => txt_unclosed(),
        DiagKindV::UnexpectedToken => txt_token(),
        DiagKindV::UnknownDirective => txt_directive(),
        DiagKindV::CyclicInclude { cycle } => txt_cyclic() + joined_names(cycle),
        DiagKindV::UnknownReference { name } => txt_unknown_open() + name + txt_quote(),
        DiagKindV::NestingTooDeep { limit, actual } => txt_depth() + dec_spec(actual as nat)
            + txt_exceeds() + dec_spec(limit as nat),
        DiagKindV::DuplicateDefinition { name } => txt_dup_open() + name + txt_quote(),
        DiagKindV::UnsupportedConstruct => txt_unsupported(),
        DiagKindV::PayloadTooLarge => txt_payload(),
    }
}

/// The full rendering: stage, wording, and the byte range it points at.
pub open spec fn render_spec(d: DiagV) -> Seq<u8> {
    stage_text(d.stage) + txt_colon() + kind_text(d.kind) + txt_at() + dec_spec(d.span.lo as nat)
        + txt_dots() + dec_spec(d.span.hi as nat)
}

/// Appends a byte vector.
fn push_bytes(out: &mut Vec<u8>, s: &Vec<u8>)
    ensures
        final(out)@ == old(out)@ + s@,
{
    let mut t: usize = 0;
    while t < s.len()
        invariant
            t <= s.len(),
            out@ == old(out)@ + s@.subrange(0, t as int),
        decreases s.len() - t,
    {
        out.push(s[t]);
        t = t + 1;
        proof {
            assert(out@ =~= old(out)@ + s@.subrange(0, t as int));
        }
    }
    proof {
        assert(out@ =~= old(out)@ + s@);
    }
}

/// Appends the stage wording.
fn push_stage_text(out: &mut Vec<u8>, st: Stage)
    ensures
        final(out)@ == old(out)@ + stage_text(st),
{
    match st {
        Stage::Lex => {
            out.push(108);
            out.push(101);
            out.push(120);
        },
        Stage::Parse => {
            out.push(112);
            out.push(97);
            out.push(114);
            out.push(115);
            out.push(101);
        },
        Stage::Validate => {
            out.push(118);
            out.push(97);
            out.push(108);
            out.push(105);
            out.push(100);
            out.push(97);
            out.push(116);
            out.push(101);
        },
        Stage::Encode => {
            out.push(101);
            out.push(110);
            out.push(99);
            out.push(111);
            out.push(100);
            out.push(101);
        },
    }
    proof {
        assert(out@ =~= old(out)@ + stage_text(st));
    }
}

/// Appends the kind wording.
#[verifier::rlimit(100)]
fn push_kind_text(out: &mut Vec<u8>, k: &DiagKind)
    ensures
        final(out)@ == old(out)@ + kind_text(k@),
{
    let ghost k0 = out@;
    match k {
        DiagKind::UnterminatedDelimiter => {
            out.push(117);
            out.push(110);
            out.push(116);
            out.push(101);
            out.push(114);
            out.push(109);
            out.push(105);
            out.push(110);
            out.push(97);
            out.push(116);
            out.push(101);
            out.push(100);
            out.push(32);
            out.push(100);
            out.push(101);
            out.push(108);
            out.push(105);
            out.push(109);
            out.push(105);
            out.push(116);
            out.push(101);
            out.push(114);
        },
        DiagKind::InvalidEscape => {
            out.push(105);
            out.push(110);
            out.push(118);
            out.push(97);
            out.push(108);
            out.push(105);
            out.push(100);
            out.push(32);
            out.push(101);
            out.push(115);
            out.push(99);
            out.push(97);
            out.push(112);
            out.push(101);
        },
        DiagKind::UnexpectedByte => {
            out.push(117);
            out.push(110);
            out.push(101);
            out.push(120);
            out.push(112);
            out.push(101);
            out.push(99);
            out.push(116);
            out.push(101);
            out.push(100);
            out.push(32);
            out.push(98);
            out.push(121);
            out.push(116);
            out.push(101);
        },
        DiagKind::UnclosedBlock => {
            out.push(117);
            out.push(110);
            out.push(99);
            out.push(108);
            out.push(111);
            out.push(115);
            out.push(101);
            out.push(100);
            out.push(32);
            out.push(98);
            out.push(108);
            out.push(111);
            out.push(99);
            out.push(107);
        },
        DiagKind::UnexpectedToken => {
            out.push(117);
            out.push(110);
            out.push(101);
            out.push(120);
            out.push(112);
            out.push(101);
            out.push(99);
            out.push(116);
            out.push(101);
            out.push(100);
            out.push(32);
            out.push(116);
            out.push(111);
            out.push(107);
            out.push(101);
            out.push(110);
        },
        DiagKind::UnknownDirective => {
            out.push(117);
            out.push(110);
            out.push(107);
            out.push(110);
            out.push(111);
            out.push(119);
            out.push(110);
            out.push(32);
            out.push(100);
            out.push(105);
            out.push(114);
            out.push(101);
            out.push(99);
            out.push(116);
            out.push(105);
            out.push(118);
            out.push(101);
        },
        DiagKind::CyclicInclude { cycle } => {
            out.push(99);
            out.push(121);
            out.push(99);
            out.push(108);
            out.push(105);
            out.push(99);
            out.push(32);
            out.push(114);
            out.push(101);
            out.push(102);
            out.push(101);
            out.push(114);
            out.push(101);
            out.push(110);
            out.push(99);
            out.push(101);
            out.push(58);
            out.push(32);
            let ghost c0 = out@;
            let ghost names = names_view(cycle@);
            proof {
                assert(c0 =~= k0 + txt_cyclic());
                assert(names.skip(0) =~= names);
            }
            let mut t: usize = 0;
            while t < cycle.len()
                invariant
                    t <= cycle.len(),
                    names == names_view(cycle@),
                    c0 + joined_names(names) == out@ + (if (t as int) < names.len() {
                        if t > 0 {
                            txt_arrow() + joined_names(names.skip(t as int))
                        } else {
                            joined_names(names.skip(t as int))
                        }
                    } else {
                        Seq::<u8>::empty()
                    }),
                decreases cycle.len() - t,
            {
                let ghost o0 = out@;
                proof {
                    assert(names.skip(t as int)[0] == names[t as int]);
                    assert(names.skip(t as int).drop_first() =~= names.skip(t + 1));
                    assert(names[t as int] == cycle@[t as int]@);
                }
                if t > 0 {
                    out.push(32);
                    out.push(45);
                    out.push(62);
                    out.push(32);
                    proof {
                        assert(out@ =~= o0 + txt_arrow());
                    }
                }
                let ghost o1 = out@;
                push_bytes(out, &cycle[t]);
                proof {
                    assert(out@ =~= o1 + names[t as int]);
                    if names.skip(t as int).len() == 1 {
                        assert(joined_names(names.skip(t as int)) =~= names[t as int]);
                    } else {
                        assert(joined_names(names.skip(t as int)) =~= names[t as int]
                            + txt_arrow() + joined_names(names.skip(t + 1)));
                    }
                }
                t = t + 1;
            }
            proof {
                if names.len() == 0 {
                    assert(joined_names(names) =~= Seq::<u8>::empty());
                }
                assert(out@ =~= c0 + joined_names(names));
            }
        },
        DiagKind::UnknownReference { name } => {
            out.push(117);
            out.push(110);
            out.push(107);
            out.push(110);
            out.push(111);
            out.push(119);
            out.push(110);
            out.push(32);
            out.push(114);
            out.push(101);
            out.push(102);
            out.push(101);
            out.push(114);
            out.push(101);
            out.push(110);
            out.push(99);
            out.push(101);
            out.push(32);
            out.push(39);
            push_bytes(out, name);
            out.push(39);
        },
        DiagKind::NestingTooDeep { limit, actual } => {
            out.push(110);
            out.push(101);
            out.push(115);
            out.push(116);
            out.push(105);
            out.push(110);
            out.push(103);
            out.push(32);
            out.push(100);
            out.push(101);
            out.push(112);
            out.push(116);
            out.push(104);
            out.push(32);
            push_dec(out, *actual);
            out.push(32);
            out.push(101);
            out.push(120);
            out.push(99);
            out.push(101);
            out.push(101);
            out.push(100);
            out.push(115);
            out.push(32);
            out.push(108);
            out.push(105);
            out.push(109);
            out.push(105);
            out.push(116);
            out.push(32);
            push_dec(out, *limit as u64);
        },
        DiagKind::DuplicateDefinition { name } => {
            out.push(100);
            out.push(117);
            out.push(112);
            out.push(108);
            out.push(105);
            out.push(99);
            out.push(97);
            out.push(116);
            out.push(101);
            out.push(32);
            out.push(100);
            out.push(101);
            out.push(102);
            out.push(105);
            out.push(110);
            out.push(105);
            out.push(116);
            out.push(105);
            out.push(111);
            out.push(110);
            out.push(32);
            out.push(39);
            push_bytes(out, name);
            out.push(39);
        },
        DiagKind::UnsupportedConstruct => {
            out.push(117);
            out.push(110);
            out.push(115);
            out.push(117);
            out.push(112);
            out.push(112);
            out.push(111);
            out.push(114);
            out.push(116);
            out.push(101);
            out.push(100);
            out.push(32);
            out.push(99);
            out.push(111);
            out.push(110);
            out.push(115);
            out.push(116);
            out.push(114);
            out.push(117);
            out.push(99);
            out.push(116);
        },
        DiagKind::PayloadTooLarge => {
            out.push(112);
            out.push(97);
            out.push(121);
            out.push(108);
            out.push(111);
            out.push(97);
            out.push(100);
            out.push(32);
            out.push(116);
            out.push(111);
            out.push(111);
            out.push(32);
            out.push(108);
            out.push(97);
            out.push(114);
            out.push(103);
            out.push(101);
        },
    }
    proof {
        assert(out@ =~= k0 + kind_text(k@));
    }
}

/// Renders a diagnostic to one line of readable text.
pub fn render_diagnostic(d: &Diagnostic) -> (r: Vec<u8>)
    ensures
        r@ == render_spec(d@),
{
    let mut out: Vec<u8> = Vec::new();
    push_stage_text(&mut out, d.stage);
    out.push(58);
    out.push(32);
    proof {
        assert(out@ =~= stage_text(d@.stage) + txt_colon());
    }
    push_kind_text(&mut out, &d.kind);
    out.push(32);
    out.push(97);
    out.push(116);
    out.push(32);
    out.push(98);
    out.push(121);
    out.push(116);
    out.push(101);
    out.push(115);
    out.push(32);
    push_dec(&mut out, d.span.lo as u64);
    out.push(46);
    out.push(46);
    push_dec(&mut out, d.span.hi as u64);
    proof {
        assert(out@ =~= render_spec(d@));
    }
    out
}

/// The number of newlines in `s` before position `off`.
pub open spec fn count_nl(s: Seq<u8>, off: int) -> nat
    decreases off,
{
    if off <= 0 {
        0
    } else {
        count_nl(s, off - 1) + (if s[off - 1] == 10 {
            1nat
        } else {
            0nat
        })
    }
}

/// The 1-based line of byte `off`.
pub open spec fn line_of(s: Seq<u8>, off: int) -> nat {
    1 + count_nl(s, off)
}

/// The 1-based column of byte `off` within its line.
pub open spec fn col_of(s: Seq<u8>, off: int) -> nat
    decreases off,
{
    if off <= 0 {
        1
    } else if s[off - 1] == 10 {
        1
    } else {
        1 + col_of(s, off - 1)
    }
}

/// The 1-based line and column of byte offset `off` in `src`, for
/// locating a diagnostic's span in the source text.
pub fn line_col(src: &[u8], off: usize) -> (r: (usize, usize))
    requires
        off <= src.len(),
        src.len() < usize::MAX,
    ensures
        r.0 == line_of(src@, off as int),
        r.1 == col_of(src@, off as int),
{
    let mut line: usize = 1;
    let mut cs: usize = 0;
    let mut i: usize = 0;
    while i < off
        invariant
            i <= off <= src.len(),
            src.len() < usize::MAX,
            cs <= i,
            line <= i + 1,
            line == line_of(src@, i as int),
            col_of(src@, i as int) == i - cs + 1,
        decreases off - i,
    {
        if src[i] == 10 {
            line = line + 1;
            cs = i + 1;
        }
        i = i + 1;
    }
    (line, off - cs + 1)
}

} // verus!
