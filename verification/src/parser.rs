//! The parser: a token sequence to a document. Block directives are kept on
//! an explicit stack of open frames, so parsing never recurses and arbitrary
//! nesting cannot exhaust the call stack; a frame's node is appended to the
//! arena when its `end` directive arrives, which is why children always have
//! smaller arena indices than their parent. Malformed constructs are
//! reported and skipped so one pass can surface several independent errors;
//! the caller truncates to the first in fail-fast mode.
use vstd::prelude::*;

verus! {

use crate::diag::{Span, Stage, DiagKind, DiagKindV, Diagnostic, DiagV, diags_view};
use crate::lexer::{Tok, TokV, TokenV, Token, tokens_view, copy_range};
use crate::ast::{Node, NodeV, Document, DocV, nodes_view, dup_bytes};

/// What kind of block a still-open directive frame is for.
#[derive(Clone, Copy, Debug, PartialEq, Eq, Structural)]
pub enum FrameKind {
    If,
    For,
    Define,
}

/// Directive keywords, plus `Other` for an unknown word.
#[derive(Clone, Copy, Debug, PartialEq, Eq, Structural)]
pub enum Kw {
    If,
    For,
    Include,
    Call,
    Define,
    End,
    Other,
}

pub open spec fn kw_if() -> Seq<u8> {
    seq![105u8, 102u8]
}

pub open spec fn kw_for() -> Seq<u8> {
    seq![102u8, 111u8, 114u8]
}

pub open spec fn kw_include() -> Seq<u8> {
    seq![105u8, 110u8, 99u8, 108u8, 117u8, 100u8, 101u8]
}

pub open spec fn kw_call() -> Seq<u8> {
    seq![99u8, 97u8, 108u8, 108u8]
}

pub open spec fn kw_define() -> Seq<u8> {
    seq![100u8, 101u8, 102u8, 105u8, 110u8, 101u8]
}

pub open spec fn kw_end() -> Seq<u8> {
    seq![101u8, 110u8, 100u8]
}

/// Classifies a directive word.
pub open spec fn kw_of(s: Seq<u8>) -> Kw {
    if s == kw_if() {
        Kw::If
    } else if s == kw_for() {
        Kw::For
    } else if s == kw_include() {
        Kw::Include
    } else if s == kw_call() {
        Kw::Call
    } else if s == kw_define() {
        Kw::Define
    } else if s == kw_end() {
        Kw::End
    } else {
        Kw::Other
    }
}

fn kw_of_b(v: &Vec<u8>) -> (k: Kw)
    ensures
        k == kw_of(v@),
{
    if v.len() == 2 && v[0] == 105 && v[1] == 102 {
        proof {
            assert(v@ =~= kw_if());
        }
        Kw::If
    } else if v.len() == 3 && v[0] == 102 && v[1] == 111 && v[2] == 114 {
        proof {
            assert(v@ =~= kw_for());
        }
        Kw::For
    } else if v.len() == 7 && v[0] == 105 && v[1] == 110 && v[2] == 99 && v[3] == 108 && v[4]
        == 117 && v[5] == 100 && v[6] == 101 {
        proof {
            assert(v@ =~= kw_include());
        }
        Kw::Include
    } else if v.len() == 4 && v[0] == 99 && v[1] == 97 && v[2] == 108 && v[3] == 108 {
        proof {
            assert(v@ =~= kw_call());
        }
        Kw::Call
    } else if v.len() == 6 && v[0] == 100 && v[1] == 101 && v[2] == 102 && v[3] == 105 && v[4]
        == 110 && v[5] == 101 {
        proof {
            assert(v@ =~= kw_define());
        }
        Kw::Define
    } else if v.len() == 3 && v[0] == 101 && v[1] == 110 && v[2] == 100 {
        proof {
            assert(v@ =~= kw_end());
        }
        Kw::End
    } else {
        Kw::Other
    }
}

/// A still-open block directive.
#[derive(Clone, Debug)]
pub struct Frame {
    pub kind: FrameKind,
    pub name: Vec<u8>,
    pub children: Vec<usize>,
    pub open: Span,
}

/// Mathematical model of `Frame`.
pub struct FrameV {
    pub kind: FrameKind,
    pub name: Seq<u8>,
    pub children: Seq<usize>,
    pub open: Span,
}

impl View for Frame {
    type V = FrameV;

    open spec fn view(&self) -> FrameV {
        FrameV {
            kind: self.kind,
            name: self.name@,
            children: self.children@,
            open: self.open,
        }
    }
}

/// View of the frame stack.
pub open spec fn frames_view(s: Seq<Frame>) -> Seq<FrameV> {
    s.map_values(|f: Frame| f@)
}

/// The parser's whole state between steps.
pub struct PState {
    pub pos: int,
    pub arena: Seq<NodeV>,
    pub roots: Seq<usize>,
    pub stack: Seq<FrameV>,
    pub diags: Seq<DiagV>,
}

/// What a parse returns: the document and the gathered diagnostics.
pub struct ParseOut {
    pub doc: DocV,
    pub diags: Seq<DiagV>,
}

/// A diagnostic from the parsing stage.
pub open spec fn parse_diag(kind: DiagKindV, span: Span) -> DiagV {
    DiagV { stage: Stage::Parse, kind, span }
}

/// Number of tokens from `p` up to the next opening delimiter token.
pub open spec fn tok_skip_len(toks: Seq<TokenV>, p: int) -> nat
    decreases toks.len() - p,
{
    if !(0 <= p < toks.len()) {
        0
    } else if toks[p].tok is OpenDir || toks[p].tok is OpenInterp {
        0
    } else {
        1 + tok_skip_len(toks, p + 1)
    }
}

/// Where parsing resumes after a malformed construct at `p`: at least one
/// token on, at the next opening delimiter.
pub open spec fn recover_pos(toks: Seq<TokenV>, p: int) -> int {
    if p + 1 + tok_skip_len(toks, p + 1) <= toks.len() {
        p + 1 + tok_skip_len(toks, p + 1)
    } else {
        toks.len() as int
    }
}

/// Appends the node index `idx` to the innermost open frame, or to the
/// top-level list if no block is open.
pub open spec fn attach_st(st: PState, idx: usize) -> PState {
    if st.stack.len() == 0 {
        PState { roots: st.roots.push(idx), ..st }
    } else {
        let f = st.stack.last();
        PState {
            stack: st.stack.drop_last().push(
                FrameV { children: f.children.push(idx), ..f },
            ),
            ..st
        }
    }
}

/// Appends a fresh node and attaches it.
pub open spec fn add_node(st: PState, n: NodeV) -> PState {
    let idx = st.arena.len() as usize;
    let st1 = PState { arena: st.arena.push(n), ..st };
    attach_st(st1, idx)
}

/// The span from the start of `a` to the end of `b`.
pub open spec fn span_join(a: Span, b: Span) -> Span {
    Span { lo: a.lo, hi: b.hi }
}

/// The node a closed frame turns into.
pub open spec fn frame_node(f: FrameV, span: Span) -> NodeV {
    match f.kind {
        FrameKind::If => NodeV::If { cond: f.name, children: f.children, span },
        FrameKind::For => NodeV::For { var: f.name, children: f.children, span },
        FrameKind::Define => NodeV::Define { name: f.name, children: f.children, span },
    }
}

/// One parser step at `st.pos` (which must be in range). This is the
/// parser's defining equation, one token-shape case at a time.
pub open spec fn parse_step(toks: Seq<TokenV>, st: PState) -> PState {
    let t = toks[st.pos];
    match t.tok {
        TokV::Text(b) => PState {
            pos: st.pos + 1,
            ..add_node(st, NodeV::Text { text: b, span: t.span })
        },
        TokV::OpenInterp => {
            if st.pos + 2 < toks.len() && toks[st.pos + 1].tok is Ident && toks[st.pos + 2].tok
                is CloseInterp {
                let name = toks[st.pos + 1].tok->Ident_0;
                let sp = span_join(t.span, toks[st.pos + 2].span);
                PState {
                    pos: st.pos + 3,
                    ..add_node(st, NodeV::Interpolation { name, span: sp })
                }
            } else {
                PState {
                    pos: recover_pos(toks, st.pos),
                    diags: st.diags.push(parse_diag(DiagKindV::UnexpectedToken, t.span)),
                    ..st
                }
            }
        },
        TokV::OpenDir => {
            if st.pos + 1 < toks.len() && toks[st.pos + 1].tok is Ident {
                let kw = kw_of(toks[st.pos + 1].tok->Ident_0);
                if kw == Kw::End {
                    if st.pos + 2 < toks.len() && toks[st.pos + 2].tok is CloseDir {
                        if st.stack.len() > 0 {
                            let f = st.stack.last();
                            let sp = span_join(f.open, toks[st.pos + 2].span);
                            let st1 = PState { stack: st.stack.drop_last(), ..st };
                            PState { pos: st.pos + 3, ..add_node(st1, frame_node(f, sp)) }
                        } else {
                            PState {
                                pos: st.pos + 3,
                                diags: st.diags.push(
                                    parse_diag(DiagKindV::UnexpectedToken, t.span),
                                ),
                                ..st
                            }
                        }
                    } else {
                        PState {
                            pos: recover_pos(toks, st.pos),
                            diags: st.diags.push(parse_diag(DiagKindV::UnexpectedToken, t.span)),
                            ..st
                        }
                    }
                } else if kw == Kw::Other {
                    PState {
                        pos: recover_pos(toks, st.pos),
                        diags: st.diags.push(
                            parse_diag(DiagKindV::UnknownDirective, toks[st.pos + 1].span),
                        ),
                        ..st
                    }
                } else {
                    if st.pos + 3 < toks.len() && toks[st.pos + 2].tok is Ident && toks[st.pos
                        + 3].tok is CloseDir {
                        let arg = toks[st.pos + 2].tok->Ident_0;
                        let sp = span_join(t.span, toks[st.pos + 3].span);
                        if kw == Kw::Include {
                            PState {
                                pos: st.pos + 4,
                                ..add_node(st, NodeV::Include { target: arg, span: sp })
                            }
                        } else if kw == Kw::Call {
                            PState {
                                pos: st.pos + 4,
                                ..add_node(st, NodeV::Call { target: arg, span: sp })
                            }
                        } else if kw == Kw::Define && st.stack.len() > 0 {
                            PState {
                                pos: st.pos + 4,
                                diags: st.diags.push(
                                    parse_diag(DiagKindV::UnexpectedToken, t.span),
                                ),
                                ..st
                            }
                        } else {
                            let fk = if kw == Kw::If {
                                FrameKind::If
                            } else if kw == Kw::For {
                                FrameKind::For
                            } else {
                                FrameKind::Define
                            };
                            PState {
                                pos: st.pos + 4,
                                stack: st.stack.push(
                                    FrameV { kind: fk, name: arg, children: Seq::empty(), open: sp },
                                ),
                                ..st
                            }
                        }
                    } else {
                        PState {
                            pos: recover_pos(toks, st.pos),
                            diags: st.diags.push(parse_diag(DiagKindV::UnexpectedToken, t.span)),
                            ..st
                        }
                    }
                }
            } else {
                PState {
                    pos: recover_pos(toks, st.pos),
                    diags: st.diags.push(parse_diag(DiagKindV::UnexpectedToken, t.span)),
                    ..st
                }
            }
        },
        _ => PState {
            pos: st.pos + 1,
            diags: st.diags.push(parse_diag(DiagKindV::UnexpectedToken, t.span)),
            ..st
        },
    }
}

/// Runs the parser to completion from `st`. At the end of input every still
/// open frame is reported as an unclosed block, innermost first.
pub open spec fn parse_from(toks: Seq<TokenV>, st: PState) -> ParseOut
    decreases toks.len() - st.pos, st.stack.len(),
{
    if st.pos >= toks.len() {
        if st.stack.len() == 0 || st.pos != toks.len() {
            ParseOut { doc: DocV { arena: st.arena, roots: st.roots }, diags: st.diags }
        } else {
            let f = st.stack.last();
            parse_from(
                toks,
                PState {
                    stack: st.stack.drop_last(),
                    diags: st.diags.push(parse_diag(DiagKindV::UnclosedBlock, f.open)),
                    ..st
                },
            )
        }
    } else if st.pos < 0 {
        ParseOut { doc: DocV { arena: st.arena, roots: st.roots }, diags: st.diags }
    } else {
        let st2 = parse_step(toks, st);
        if st.pos < st2.pos <= toks.len() {
            parse_from(toks, st2)
        } else {
            ParseOut { doc: DocV { arena: st.arena, roots: st.roots }, diags: st.diags }
        }
    }
}

/// The initial parser state.
pub open spec fn parse_init() -> PState {
    PState {
        pos: 0,
        arena: Seq::empty(),
        roots: Seq::empty(),
        stack: Seq::empty(),
        diags: Seq::empty(),
    }
}

/// The document and diagnostics of a whole token sequence.
pub open spec fn parse_spec(toks: Seq<TokenV>) -> ParseOut {
    parse_from(toks, parse_init())
}

fn skip_to_boundary(toks: &Vec<Token>, p: usize) -> (q: usize)
    requires
        p < toks.len(),
    ensures
        p < q <= toks.len(),
        q as int == recover_pos(tokens_view(toks@), p as int),
{
    let mut q = p + 1;
    while q < toks.len() && !(matches!(&toks[q].tok, Tok::OpenDir) || matches!(
        &toks[q].tok,
        Tok::OpenInterp,
    ))
        invariant
            p + 1 <= q <= toks.len(),
            tok_skip_len(tokens_view(toks@), p + 1) == (q - p - 1) as nat + tok_skip_len(
                tokens_view(toks@),
                q as int,
            ),
        decreases toks.len() - q,
    {
        proof {
            assert(tokens_view(toks@)[q as int] == toks@[q as int]@);
        }
        q = q + 1;
    }
    proof {
        let tv = tokens_view(toks@);
        if q < toks.len() {
            assert(tv[q as int] == toks@[q as int]@);
            assert(tok_skip_len(tv, q as int) == 0);
        } else {
            assert(tok_skip_len(tv, q as int) == 0);
        }
    }
    q
}

/// The exec parser state viewed as a `PState`.
pub open spec fn pstate_of(
    pos: usize,
    arena: Seq<Node>,
    roots: Seq<usize>,
    stack: Seq<Frame>,
    diags: Seq<Diagnostic>,
) -> PState {
    PState {
        pos: pos as int,
        arena: nodes_view(arena),
        roots: roots,
        stack: frames_view(stack),
        diags: diags_view(diags),
    }
}

/// Parses a whole token stream, gathering every error it can surface.
#[verifier::rlimit(100)]
pub fn parse(toks: &Vec<Token>) -> (r: (Document, Vec<Diagnostic>))
    ensures
        r.0@ == parse_spec(tokens_view(toks@)).doc,
        diags_view(r.1@) == parse_spec(tokens_view(toks@)).diags,
{
    let ghost tv = tokens_view(toks@);
    let mut pos: usize = 0;
    let mut arena: Vec<Node> = Vec::new();
    let mut roots: Vec<usize> = Vec::new();
    let mut stack: Vec<Frame> = Vec::new();
    let mut diags: Vec<Diagnostic> = Vec::new();
    proof {
        assert(pstate_of(pos, arena@, roots@, stack@, diags@).arena =~= parse_init().arena);
        assert(pstate_of(pos, arena@, roots@, stack@, diags@).stack =~= parse_init().stack);
        assert(pstate_of(pos, arena@, roots@, stack@, diags@).diags =~= parse_init().diags);
        assert(pstate_of(pos, arena@, roots@, stack@, diags@) == parse_init());
    }
    loop
        invariant
            pos <= toks.len(),
            tv == tokens_view(toks@),
            parse_from(tv, pstate_of(pos, arena@, roots@, stack@, diags@)) == parse_from(
                tv,
                parse_init(),
            ),
        decreases toks.len() - pos, stack.len(),
    {
        let ghost stv = pstate_of(pos, arena@, roots@, stack@, diags@);
        if pos >= toks.len() {
            match stack.pop() {
                None => {
                    proof {
                        assert(parse_from(tv, stv).doc.arena =~= nodes_view(arena@));
                        assert(parse_from(tv, stv).doc.roots =~= roots@);
                        assert(parse_from(tv, stv).diags =~= diags_view(diags@));
                    }
                    let doc = Document { arena, roots };
                    return (doc, diags);
                },
                Some(f) => {
                    let d = Diagnostic {
                        stage: Stage::Parse,
                        kind: DiagKind::UnclosedBlock,
                        span: f.open,
                    };
                    diags.push(d);
                    proof {
                        let st2 = pstate_of(pos, arena@, roots@, stack@, diags@);
                        assert(st2.stack =~= stv.stack.drop_last());
                        assert(st2.diags =~= stv.diags.push(
                            parse_diag(DiagKindV::UnclosedBlock, stv.stack.last().open),
                        ));
                        assert(st2 == (PState {
                            stack: stv.stack.drop_last(),
                            diags: stv.diags.push(
                                parse_diag(DiagKindV::UnclosedBlock, stv.stack.last().open),
                            ),
                            ..stv
                        }));
                    }
                },
            }
            continue;
        }
        let span = toks[pos].span;
        match &toks[pos].tok {
            Tok::Text(b) => {
                let n = Node::Text { text: dup_bytes(b), span };
                proof {
                    assert(tv[pos as int].tok == TokV::Text(b@));
                }
                push_attach(&mut arena, &mut roots, &mut stack, n);
                proof {
                    let st2 = pstate_of((pos + 1) as usize, arena@, roots@, stack@, diags@);
                    assert(st2 == parse_step(tv, stv));
                }
                pos = pos + 1;
            },
            Tok::OpenInterp => {
                if toks.len() - pos > 2 && matches!(&toks[pos + 1].tok, Tok::Ident(_)) && matches!(
                    &toks[pos + 2].tok,
                    Tok::CloseInterp,
                ) {
                    let name = match &toks[pos + 1].tok {
                        Tok::Ident(nm) => dup_bytes(nm),
                        _ => Vec::new(),
                    };
                    let sp = Span { lo: span.lo, hi: toks[pos + 2].span.hi };
                    let n = Node::Interpolation { name, span: sp };
                    push_attach(&mut arena, &mut roots, &mut stack, n);
                    proof {
                        let st2 = pstate_of((pos + 3) as usize, arena@, roots@, stack@, diags@);
                        assert(st2 == parse_step(tv, stv));
                    }
                    pos = pos + 3;
                } else {
                    let q = skip_to_boundary(toks, pos);
                    let d = Diagnostic {
                        stage: Stage::Parse,
                        kind: DiagKind::UnexpectedToken,
                        span,
                    };
                    diags.push(d);
                    proof {
                        let st2 = pstate_of(q, arena@, roots@, stack@, diags@);
                        assert(st2.diags =~= stv.diags.push(
                            parse_diag(DiagKindV::UnexpectedToken, span),
                        ));
                        assert(st2 == parse_step(tv, stv));
                    }
                    pos = q;
                }
            },
            Tok::OpenDir => {
                let r = parse_directive(toks, pos, &mut arena, &mut roots, &mut stack, &mut diags);
                proof {
                    let st2 = pstate_of(r, arena@, roots@, stack@, diags@);
                    assert(st2 == parse_step(tv, stv));
                }
                pos = r;
            },
            _ => {
                let d = Diagnostic {
                    stage: Stage::Parse,
                    kind: DiagKind::UnexpectedToken,
                    span,
                };
                diags.push(d);
                proof {
                    let st2 = pstate_of((pos + 1) as usize, arena@, roots@, stack@, diags@);
                    assert(st2.diags =~= stv.diags.push(
                        parse_diag(DiagKindV::UnexpectedToken, span),
                    ));
                    assert(st2 == parse_step(tv, stv));
                }
                pos = pos + 1;
            },
        }
    }
}

/// Appends `n` to the arena and attaches its index to the innermost open
/// frame (or the top level).
fn push_attach(
    arena: &mut Vec<Node>,
    roots: &mut Vec<usize>,
    stack: &mut Vec<Frame>,
    n: Node,
) -> (idx: usize)
    ensures
        ({
            let st0 = PState {
                pos: 0,
                arena: nodes_view(old(arena)@),
                roots: old(roots)@,
                stack: frames_view(old(stack)@),
                diags: Seq::empty(),
            };
            let st1 = add_node(st0, n@);
            &&& nodes_view(final(arena)@) == st1.arena
            &&& final(roots)@ == st1.roots
            &&& frames_view(final(stack)@) == st1.stack
            &&& idx == old(arena)@.len()
        }),
{
    let idx = arena.len();
    let ghost a0 = arena@;
    arena.push(n);
    proof {
        assert(nodes_view(arena@) =~= nodes_view(a0).push(n@));
    }
    match stack.pop() {
        None => {
            roots.push(idx);
            proof {
                assert(frames_view(stack@) =~= frames_view(stack@));
            }
        },
        Some(mut f) => {
            let ghost s0 = stack@;
            let ghost fv = f@;
            f.children.push(idx);
            stack.push(f);
            proof {
                assert(frames_view(stack@) =~= frames_view(s0).push(
                    FrameV { children: fv.children.push(idx), ..fv },
                ));
            }
        },
    }
    idx
}

/// Handles one directive (the token at `pos` is `OpenDir`); returns the
/// position to resume at.
#[verifier::rlimit(100)]
fn parse_directive(
    toks: &Vec<Token>,
    pos: usize,
    arena: &mut Vec<Node>,
    roots: &mut Vec<usize>,
    stack: &mut Vec<Frame>,
    diags: &mut Vec<Diagnostic>,
) -> (r: usize)
    requires
        pos < toks.len(),
        tokens_view(toks@)[pos as int].tok is OpenDir,
    ensures
        r <= toks.len(),
        pos < r,
        ({
            let tv = tokens_view(toks@);
            let st0 = PState {
                pos: pos as int,
                arena: nodes_view(old(arena)@),
                roots: old(roots)@,
                stack: frames_view(old(stack)@),
                diags: diags_view(old(diags)@),
            };
            let st2 = parse_step(tv, st0);
            &&& nodes_view(final(arena)@) == st2.arena
            &&& final(roots)@ == st2.roots
            &&& frames_view(final(stack)@) == st2.stack
            &&& diags_view(final(diags)@) == st2.diags
            &&& r as int == st2.pos
        }),
{
    let ghost tv = tokens_view(toks@);
    let ghost st0 = PState {
        pos: pos as int,
        arena: nodes_view(arena@),
        roots: roots@,
        stack: frames_view(stack@),
        diags: diags_view(diags@),
    };
    let span = toks[pos].span;
    if pos + 1 < toks.len() && matches!(&toks[pos + 1].tok, Tok::Ident(_)) {
        let kw = match &toks[pos + 1].tok {
            Tok::Ident(w) => kw_of_b(w),
            _ => Kw::Other,
        };
        proof {
            assert(tv[pos as int + 1].tok is Ident);
        }
        if matches!(kw, Kw::End) {
            if toks.len() - pos > 2 && matches!(&toks[pos + 2].tok, Tok::CloseDir) {
                match stack.pop() {
                    Some(f) => {
                        let sp = Span { lo: f.open.lo, hi: toks[pos + 2].span.hi };
                        let ghost fv = f@;
                        let ghost s1 = frames_view(stack@);
                        let n: Node = match f.kind {
                            FrameKind::If => Node::If { cond: f.name, children: f.children, span: sp },
                            FrameKind::For => Node::For { var: f.name, children: f.children, span: sp },
                            FrameKind::Define => Node::Define {
                                name: f.name,
                                children: f.children,
                                span: sp,
                            },
                        };
                        proof {
                            assert(s1 =~= st0.stack.drop_last());
                            assert(n@ == frame_node(fv, sp));
                        }
                        push_attach(arena, roots, stack, n);
                        proof {
                            let st2 = parse_step(tv, st0);
                            assert(nodes_view(arena@) =~= st2.arena);
                            assert(frames_view(stack@) =~= st2.stack);
                        }
                        return pos + 3;
                    },
                    None => {
                        let d = Diagnostic {
                            stage: Stage::Parse,
                            kind: DiagKind::UnexpectedToken,
                            span,
                        };
                        diags.push(d);
                        proof {
                            assert(diags_view(diags@) =~= st0.diags.push(
                                parse_diag(DiagKindV::UnexpectedToken, span),
                            ));
                        }
                        return pos + 3;
                    },
                }
            } else {
                let q = skip_to_boundary(toks, pos);
                let d = Diagnostic { stage: Stage::Parse, kind: DiagKind::UnexpectedToken, span };
                diags.push(d);
                proof {
                    assert(diags_view(diags@) =~= st0.diags.push(
                        parse_diag(DiagKindV::UnexpectedToken, span),
                    ));
                }
                return q;
            }
        } else if matches!(kw, Kw::Other) {
            let q = skip_to_boundary(toks, pos);
            let ksp = toks[pos + 1].span;
            let d = Diagnostic { stage: Stage::Parse, kind: DiagKind::UnknownDirective, span: ksp };
            diags.push(d);
            proof {
                assert(diags_view(diags@) =~= st0.diags.push(
                    parse_diag(DiagKindV::UnknownDirective, ksp),
                ));
            }
            return q;
        } else {
            if toks.len() - pos > 3 && matches!(&toks[pos + 2].tok, Tok::Ident(_)) && matches!(
                &toks[pos + 3].tok,
                Tok::CloseDir,
            ) {
                let arg = match &toks[pos + 2].tok {
                    Tok::Ident(a) => dup_bytes(a),
                    _ => Vec::new(),
                };
                let sp = Span { lo: span.lo, hi: toks[pos + 3].span.hi };
                if matches!(kw, Kw::Include) {
                    let n = Node::Include { target: arg, span: sp };
                    push_attach(arena, roots, stack, n);
                    proof {
                        let st2 = parse_step(tv, st0);
                        assert(nodes_view(arena@) =~= st2.arena);
                    }
                    return pos + 4;
                } else if matches!(kw, Kw::Call) {
                    let n = Node::Call { target: arg, span: sp };
                    push_attach(arena, roots, stack, n);
                    proof {
                        let st2 = parse_step(tv, st0);
                        assert(nodes_view(arena@) =~= st2.arena);
                    }
                    return pos + 4;
                } else if matches!(kw, Kw::Define) && stack.len() > 0 {
                    let d = Diagnostic {
                        stage: Stage::Parse,
                        kind: DiagKind::UnexpectedToken,
                        span,
                    };
                    diags.push(d);
                    proof {
                        assert(diags_view(diags@) =~= st0.diags.push(
                            parse_diag(DiagKindV::UnexpectedToken, span),
                        ));
                    }
                    return pos + 4;
                } else {
                    let fk = if matches!(kw, Kw::If) {
                        FrameKind::If
                    } else if matches!(kw, Kw::For) {
                        FrameKind::For
                    } else {
                        FrameKind::Define
                    };
                    let f = Frame { kind: fk, name: arg, children: Vec::new(), open: sp };
                    let ghost s0 = frames_view(stack@);
                    let ghost fv = f@;
                    stack.push(f);
                    proof {
                        assert(frames_view(stack@) =~= s0.push(fv));
                        assert(fv.children =~= Seq::<usize>::empty());
                        let st2 = parse_step(tv, st0);
                        assert(frames_view(stack@) =~= st2.stack);
                    }
                    return pos + 4;
                }
            } else {
                let q = skip_to_boundary(toks, pos);
                let d = Diagnostic { stage: Stage::Parse, kind: DiagKind::UnexpectedToken, span };
                diags.push(d);
                proof {
                    assert(diags_view(diags@) =~= st0.diags.push(
                        parse_diag(DiagKindV::UnexpectedToken, span),
                    ));
                }
                return q;
            }
        }
    } else {
        let q = skip_to_boundary(toks, pos);
        let d = Diagnostic { stage: Stage::Parse, kind: DiagKind::UnexpectedToken, span };
        diags.push(d);
        proof {
            assert(diags_view(diags@) =~= st0.diags.push(
                parse_diag(DiagKindV::UnexpectedToken, span),
            ));
        }
        return q;
    }
}

} // verus!
