//! The lexer: raw fragment text (bytes) to a flat sequence of spanned
//! tokens. Literal text runs are one token each, with escapes decoded;
//! interpolation and directive delimiters switch the lexer into a bracketed
//! mode that yields identifier and closing-delimiter tokens; comments are
//! skipped entirely. Errors are gathered with local recovery; the caller
//! truncates them to one in fail-fast mode.
use vstd::prelude::*;

verus! {

use crate::diag::{Span, Stage, DiagKind, DiagKindV, Diagnostic, DiagV, diags_view};

pub const B_LBRACE: u8 = 123;

pub const B_RBRACE: u8 = 125;

pub const B_PERCENT: u8 = 37;

pub const B_HASH: u8 = 35;

pub const B_BACKSLASH: u8 = 92;

/// One lexical token.
#[derive(Clone, Debug, PartialEq, Eq)]
pub enum Tok {
    /// A literal text run, escapes already decoded.
    Text(Vec<u8>),
    /// An identifier appearing between delimiters.
    Ident(Vec<u8>),
    OpenInterp,
    CloseInterp,
    OpenDir,
    CloseDir,
}

/// Mathematical model of `Tok`.
pub enum TokV {
    Text(Seq<u8>),
    Ident(Seq<u8>),
    OpenInterp,
    CloseInterp,
    OpenDir,
    CloseDir,
}

impl View for Tok {
    type V = TokV;

    open spec fn view(&self) -> TokV {
        match self {
            Tok::Text(b) => TokV::Text(b@),
            Tok::Ident(b) => TokV::Ident(b@),
            Tok::OpenInterp => TokV::OpenInterp,
            Tok::CloseInterp => TokV::CloseInterp,
            Tok::OpenDir => TokV::OpenDir,
            Tok::CloseDir => TokV::CloseDir,
        }
    }
}

/// A token together with the byte range it came from.
#[derive(Clone, Debug, PartialEq, Eq)]
pub struct Token {
    pub tok: Tok,
    pub span: Span,
}

/// Mathematical model of `Token`.
pub struct TokenV {
    pub tok: TokV,
    pub span: Span,
}

impl View for Token {
    type V = TokenV;

    open spec fn view(&self) -> TokenV {
        TokenV { tok: self.tok@, span: self.span }
    }
}

/// View of a list of tokens.
pub open spec fn tokens_view(s: Seq<Token>) -> Seq<TokenV> {
    s.map_values(|t: Token| t@)
}

/// Whether the lexer is inside literal text or between a pair of
/// delimiters; `open` records where the open delimiter started.
#[derive(Clone, Copy, Debug)]
pub enum LexMode {
    Txt,
    Delim { interp: bool, open: usize },
}

/// Everything one lexer run produces.
pub struct LexOut {
    pub toks: Seq<TokenV>,
    pub diags: Seq<DiagV>,
}

pub open spec fn is_ws(b: u8) -> bool {
    b == 32 || b == 9 || b == 10 || b == 13
}

pub open spec fn is_ident_start(b: u8) -> bool {
    (65 <= b && b <= 90) || (97 <= b && b <= 122) || b == 95
}

/// Identifier continuation bytes; a dot joins the segments of a member
/// access such as `user.name`.
pub open spec fn is_ident_char(b: u8) -> bool {
    is_ident_start(b) || (48 <= b && b <= 57) || b == 46
}

/// An opening delimiter (`{{`, `{%` or `{#`) starts at `i`.
pub open spec fn is_special_start(s: Seq<u8>, i: int) -> bool {
    &&& 0 <= i
    &&& i + 1 < s.len()
    &&& s[i] == B_LBRACE
    &&& (s[i + 1] == B_LBRACE || s[i + 1] == B_PERCENT || s[i + 1] == B_HASH)
}

/// `i` advanced by `k` bytes, stopping at the end of the input.
pub open spec fn adv(s: Seq<u8>, i: int, k: nat) -> int {
    if i + k <= s.len() {
        i + k
    } else {
        s.len() as int
    }
}

/// Number of whitespace bytes starting at `i`.
pub open spec fn ws_len(s: Seq<u8>, i: int) -> nat
    decreases s.len() - i,
{
    if 0 <= i < s.len() && is_ws(s[i]) {
        1 + ws_len(s, i + 1)
    } else {
        0
    }
}

/// Number of identifier bytes starting at `i`.
pub open spec fn ident_len(s: Seq<u8>, i: int) -> nat
    decreases s.len() - i,
{
    if 0 <= i < s.len() && is_ident_char(s[i]) {
        1 + ident_len(s, i + 1)
    } else {
        0
    }
}

/// Bytes from `i` through the first `#}`, or `None` if the comment never
/// closes.
pub open spec fn comment_len(s: Seq<u8>, i: int) -> Option<nat>
    decreases s.len() - i,
{
    if !(0 <= i < s.len()) {
        None
    } else if s[i] == B_HASH && i + 1 < s.len() && s[i + 1] == B_RBRACE {
        Some(2)
    } else {
        match comment_len(s, i + 1) {
            Some(k) => Some((1 + k) as nat),
            None => None,
        }
    }
}

/// Result of scanning one literal text run: the decoded content, how many
/// source bytes it covered, and whether it ended cleanly (`ok == false`
/// means an invalid escape sits at `i + taken`).
pub struct TextScan {
    pub content: Seq<u8>,
    pub taken: nat,
    pub ok: bool,
}

/// Scans a literal text run starting at `i`: bytes up to the next opening
/// delimiter, decoding `\{`, `\}` and `\\` escapes.
pub open spec fn text_scan(s: Seq<u8>, i: int) -> TextScan
    decreases s.len() - i,
{
    if !(0 <= i < s.len()) {
        TextScan { content: Seq::empty(), taken: 0, ok: true }
    } else if is_special_start(s, i) {
        TextScan { content: Seq::empty(), taken: 0, ok: true }
    } else if s[i] == B_BACKSLASH {
        if i + 1 < s.len() && (s[i + 1] == B_LBRACE || s[i + 1] == B_RBRACE || s[i + 1]
            == B_BACKSLASH) {
            let r = text_scan(s, i + 2);
            TextScan { content: seq![s[i + 1]] + r.content, taken: (2 + r.taken) as nat, ok: r.ok }
        } else {
            TextScan { content: Seq::empty(), taken: 0, ok: false }
        }
    } else {
        let r = text_scan(s, i + 1);
        TextScan { content: seq![s[i]] + r.content, taken: (1 + r.taken) as nat, ok: r.ok }
    }
}

/// A diagnostic from the lexing stage.
pub open spec fn lex_diag(kind: DiagKindV, lo: int, hi: int) -> DiagV {
    DiagV { stage: Stage::Lex, kind, span: Span { lo: lo as usize, hi: hi as usize } }
}

/// `head` tokens and diagnostics, followed by everything in `rest`.
pub open spec fn lex_cat(ts: Seq<TokenV>, ds: Seq<DiagV>, rest: LexOut) -> LexOut {
    LexOut { toks: ts + rest.toks, diags: ds + rest.diags }
}

/// The tokens and diagnostics produced from position `i` onward in mode
/// `mode`. This is the lexer's defining equation; the executable lexer is
/// proved equal to it.
pub open spec fn lex_from(s: Seq<u8>, i: int, mode: LexMode) -> LexOut
    decreases s.len() - i,
{
    if !(0 <= i < s.len()) {
        match mode {
            LexMode::Txt => LexOut { toks: Seq::empty(), diags: Seq::empty() },
            LexMode::Delim { interp, open } => LexOut {
                toks: Seq::empty(),
                diags: seq![
                    lex_diag(DiagKindV::UnterminatedDelimiter, open as int, s.len() as int),
                ],
            },
        }
    } else {
        match mode {
            LexMode::Txt => {
                if i + 1 < s.len() && s[i] == B_LBRACE && s[i + 1] == B_LBRACE {
                    lex_cat(
                        seq![
                            TokenV {
                                tok: TokV::OpenInterp,
                                span: Span { lo: i as usize, hi: (i + 2) as usize },
                            },
                        ],
                        Seq::empty(),
                        lex_from(s, i + 2, LexMode::Delim { interp: true, open: i as usize }),
                    )
                } else if i + 1 < s.len() && s[i] == B_LBRACE && s[i + 1] == B_PERCENT {
                    lex_cat(
                        seq![
                            TokenV {
                                tok: TokV::OpenDir,
                                span: Span { lo: i as usize, hi: (i + 2) as usize },
                            },
                        ],
                        Seq::empty(),
                        lex_from(s, i + 2, LexMode::Delim { interp: false, open: i as usize }),
                    )
                } else if i + 1 < s.len() && s[i] == B_LBRACE && s[i + 1] == B_HASH {
                    match comment_len(s, i + 2) {
                        Some(k) => {
                            let next = adv(s, i + 2, k);
                            if next > i {
                                lex_from(s, next, LexMode::Txt)
                            } else {
                                LexOut { toks: Seq::empty(), diags: Seq::empty() }
                            }
                        },
                        None => LexOut {
                            toks: Seq::empty(),
                            diags: seq![
                                lex_diag(DiagKindV::UnterminatedDelimiter, i, s.len() as int),
                            ],
                        },
                    }
                } else {
                    let r = text_scan(s, i);
                    if r.ok {
                        let next = adv(s, i, r.taken);
                        if next > i {
                            let tk: Seq<TokenV> = if r.content.len() > 0 {
                                seq![
                                    TokenV {
                                        tok: TokV::Text(r.content),
                                        span: Span { lo: i as usize, hi: next as usize },
                                    },
                                ]
                            } else {
                                Seq::empty()
                            };
                            lex_cat(tk, Seq::empty(), lex_from(s, next, LexMode::Txt))
                        } else {
                            LexOut { toks: Seq::empty(), diags: Seq::empty() }
                        }
                    } else {
                        let epos = adv(s, i, r.taken);
                        let hi = adv(s, epos, 2);
                        let tk: Seq<TokenV> = if r.content.len() > 0 {
                            seq![
                                TokenV {
                                    tok: TokV::Text(r.content),
                                    span: Span { lo: i as usize, hi: epos as usize },
                                },
                            ]
                        } else {
                            Seq::empty()
                        };
                        if hi > i {
                            lex_cat(
                                tk,
                                seq![lex_diag(DiagKindV::InvalidEscape, epos, hi)],
                                lex_from(s, hi, LexMode::Txt),
                            )
                        } else {
                            LexOut {
                                toks: tk,
                                diags: seq![lex_diag(DiagKindV::InvalidEscape, epos, hi)],
                            }
                        }
                    }
                }
            },
            LexMode::Delim { interp, open } => {
                let j = adv(s, i, ws_len(s, i));
                if j >= s.len() {
                    lex_from(s, j, mode)
                } else if interp && s[j] == B_RBRACE && j + 1 < s.len() && s[j + 1] == B_RBRACE {
                    lex_cat(
                        seq![
                            TokenV {
                                tok: TokV::CloseInterp,
                                span: Span { lo: j as usize, hi: (j + 2) as usize },
                            },
                        ],
                        Seq::empty(),
                        lex_from(s, j + 2, LexMode::Txt),
                    )
                } else if !interp && s[j] == B_PERCENT && j + 1 < s.len() && s[j + 1]
                    == B_RBRACE {
                    lex_cat(
                        seq![
                            TokenV {
                                tok: TokV::CloseDir,
                                span: Span { lo: j as usize, hi: (j + 2) as usize },
                            },
                        ],
                        Seq::empty(),
                        lex_from(s, j + 2, LexMode::Txt),
                    )
                } else if is_ident_start(s[j]) {
                    let k = adv(s, j, ident_len(s, j));
                    if k > i {
                        lex_cat(
                            seq![
                                TokenV {
                                    tok: TokV::Ident(s.subrange(j, k)),
                                    span: Span { lo: j as usize, hi: k as usize },
                                },
                            ],
                            Seq::empty(),
                            lex_from(s, k, mode),
                        )
                    } else {
                        LexOut { toks: Seq::empty(), diags: Seq::empty() }
                    }
                } else {
                    lex_cat(
                        Seq::empty(),
                        seq![lex_diag(DiagKindV::UnexpectedByte, j, j + 1)],
                        lex_from(s, j + 1, mode),
                    )
                }
            },
        }
    }
}

/// The full token stream and diagnostics of `s`.
pub open spec fn lex_spec(s: Seq<u8>) -> LexOut {
    lex_from(s, 0, LexMode::Txt)
}

proof fn lemma_push_token(s: Seq<Token>, t: Token)
    ensures
        tokens_view(s.push(t)) == tokens_view(s) + seq![t@],
{
    assert(tokens_view(s.push(t)) =~= tokens_view(s) + seq![t@]);
}

proof fn lemma_push_diag(s: Seq<Diagnostic>, d: Diagnostic)
    ensures
        diags_view(s.push(d)) == diags_view(s) + seq![d@],
{
    assert(diags_view(s.push(d)) =~= diags_view(s) + seq![d@]);
}

proof fn lemma_cat_assoc(ts: Seq<TokenV>, ds: Seq<DiagV>, t2: Seq<TokenV>, d2: Seq<DiagV>, o: LexOut)
    ensures
        lex_cat(ts, ds, lex_cat(t2, d2, o)) == lex_cat(ts + t2, ds + d2, o),
{
    assert(lex_cat(ts, ds, lex_cat(t2, d2, o)).toks =~= lex_cat(ts + t2, ds + d2, o).toks);
    assert(lex_cat(ts, ds, lex_cat(t2, d2, o)).diags =~= lex_cat(ts + t2, ds + d2, o).diags);
}

fn is_ws_b(b: u8) -> (r: bool)
    ensures
        r == is_ws(b),
{
    b == 32 || b == 9 || b == 10 || b == 13
}

fn is_ident_start_b(b: u8) -> (r: bool)
    ensures
        r == is_ident_start(b),
{
    (65 <= b && b <= 90) || (97 <= b && b <= 122) || b == 95
}

fn is_ident_char_b(b: u8) -> (r: bool)
    ensures
        r == is_ident_char(b),
{
    is_ident_start_b(b) || (48 <= b && b <= 57) || b == 46
}

/// Copies `src[lo..hi]` into a fresh vector.
pub fn copy_range(src: &[u8], lo: usize, hi: usize) -> (v: Vec<u8>)
    requires
        lo <= hi <= src.len(),
    ensures
        v@ == src@.subrange(lo as int, hi as int),
{
    let mut v: Vec<u8> = Vec::new();
    let mut x = lo;
    while x < hi
        invariant
            lo <= x <= hi <= src.len(),
            v@ == src@.subrange(lo as int, x as int),
        decreases hi - x,
    {
        v.push(src[x]);
        x = x + 1;
        proof {
            assert(v@ =~= src@.subrange(lo as int, x as int));
        }
    }
    v
}

fn scan_ws(src: &[u8], i: usize) -> (j: usize)
    requires
        i <= src.len(),
    ensures
        i <= j <= src.len(),
        j as int == adv(src@, i as int, ws_len(src@, i as int)),
{
    let mut j = i;
    while j < src.len() && is_ws_b(src[j])
        invariant
            i <= j <= src.len(),
            ws_len(src@, i as int) == (j - i) as nat + ws_len(src@, j as int),
        decreases src.len() - j,
    {
        j = j + 1;
    }
    j
}

fn scan_ident(src: &[u8], i: usize) -> (j: usize)
    requires
        i <= src.len(),
    ensures
        i <= j <= src.len(),
        j as int == adv(src@, i as int, ident_len(src@, i as int)),
{
    let mut j = i;
    while j < src.len() && is_ident_char_b(src[j])
        invariant
            i <= j <= src.len(),
            ident_len(src@, i as int) == (j - i) as nat + ident_len(src@, j as int),
        decreases src.len() - j,
    {
        j = j + 1;
    }
    j
}

fn scan_comment(src: &[u8], i: usize) -> (r: Option<usize>)
    requires
        i <= src.len(),
    ensures
        match r {
            Some(j) => i <= j <= src.len() && comment_len(src@, i as int) == Some((j - i) as nat),
            None => comment_len(src@, i as int) is None,
        },
{
    let mut j = i;
    while j < src.len()
        invariant
            i <= j <= src.len(),
            comment_len(src@, i as int) == match comment_len(src@, j as int) {
                Some(k) => Some(((j - i) + k) as nat),
                None => None::<nat>,
            },
        decreases src.len() - j,
    {
        if src[j] == B_HASH && j + 1 < src.len() && src[j + 1] == B_RBRACE {
            return Some(j + 2);
        }
        j = j + 1;
    }
    None
}

fn scan_text_run(src: &[u8], i: usize) -> (r: (Vec<u8>, usize, bool))
    requires
        i <= src.len(),
    ensures
        ({
            let s = text_scan(src@, i as int);
            &&& r.0@ == s.content
            &&& r.1 as nat == s.taken
            &&& r.2 == s.ok
            &&& i + r.1 <= src.len()
        }),
{
    let mut content: Vec<u8> = Vec::new();
    let mut j = i;
    loop
        invariant
            i <= j <= src.len(),
            text_scan(src@, i as int) == (TextScan {
                content: content@ + text_scan(src@, j as int).content,
                taken: ((j - i) as nat + text_scan(src@, j as int).taken) as nat,
                ok: text_scan(src@, j as int).ok,
            }),
        decreases src.len() - j,
    {
        if j >= src.len() {
            proof {
                assert(content@ + text_scan(src@, j as int).content =~= content@);
            }
            return (content, j - i, true);
        }
        if j + 1 < src.len() && src[j] == B_LBRACE && (src[j + 1] == B_LBRACE || src[j + 1]
            == B_PERCENT || src[j + 1] == B_HASH) {
            proof {
                assert(is_special_start(src@, j as int));
                assert(content@ + text_scan(src@, j as int).content =~= content@);
            }
            return (content, j - i, true);
        }
        if src[j] == B_BACKSLASH {
            if j + 1 < src.len() && (src[j + 1] == B_LBRACE || src[j + 1] == B_RBRACE || src[j + 1]
                == B_BACKSLASH) {
                let ghost c0 = content@;
                content.push(src[j + 1]);
                proof {
                    let jj = j as int;
                    assert(text_scan(src@, jj).content =~= seq![src@[jj + 1]] + text_scan(
                        src@,
                        jj + 2,
                    ).content);
                    assert(c0 + text_scan(src@, jj).content =~= content@ + text_scan(
                        src@,
                        jj + 2,
                    ).content);
                }
                j = j + 2;
            } else {
                proof {
                    assert(!is_special_start(src@, j as int));
                    assert(text_scan(src@, j as int).taken == 0);
                    assert(content@ + text_scan(src@, j as int).content =~= content@);
                }
                return (content, j - i, false);
            }
        } else {
            let ghost c0 = content@;
            content.push(src[j]);
            proof {
                let jj = j as int;
                assert(!is_special_start(src@, jj));
                assert(text_scan(src@, jj).content =~= seq![src@[jj]] + text_scan(
                    src@,
                    jj + 1,
                ).content);
                assert(c0 + text_scan(src@, jj).content =~= content@ + text_scan(
                    src@,
                    jj + 1,
                ).content);
            }
            j = j + 1;
        }
    }
}

/// Lexes `src` completely, gathering every error with local recovery.
#[verifier::rlimit(100)]
pub fn lex(src: &[u8]) -> (r: (Vec<Token>, Vec<Diagnostic>))
    ensures
        tokens_view(r.0@) == lex_spec(src@).toks,
        diags_view(r.1@) == lex_spec(src@).diags,
{
    let mut toks: Vec<Token> = Vec::new();
    let mut diags: Vec<Diagnostic> = Vec::new();
    let mut i: usize = 0;
    let mut mode = LexMode::Txt;
    loop
        invariant
            i <= src.len(),
            lex_spec(src@) == lex_cat(
                tokens_view(toks@),
                diags_view(diags@),
                lex_from(src@, i as int, mode),
            ),
        decreases src.len() - i + 1,
    {
        let ghost t0 = toks@;
        let ghost d0 = diags@;
        let ghost rest0 = lex_from(src@, i as int, mode);
        if i >= src.len() {
            match mode {
                LexMode::Txt => {
                    proof {
                        assert(lex_spec(src@).toks =~= tokens_view(toks@));
                        assert(lex_spec(src@).diags =~= diags_view(diags@));
                    }
                },
                LexMode::Delim { interp, open } => {
                    let d = Diagnostic {
                        stage: Stage::Lex,
                        kind: DiagKind::UnterminatedDelimiter,
                        span: Span { lo: open, hi: src.len() },
                    };
                    proof {
                        lemma_push_diag(d0, d);
                    }
                    diags.push(d);
                    proof {
                        assert(lex_spec(src@).toks =~= tokens_view(toks@));
                        assert(lex_spec(src@).diags =~= diags_view(diags@));
                    }
                },
            }
            return (toks, diags);
        }
        match mode {
            LexMode::Txt => {
                if i + 1 < src.len() && src[i] == B_LBRACE && src[i + 1] == B_LBRACE {
                    let t = Token { tok: Tok::OpenInterp, span: Span { lo: i, hi: i + 2 } };
                    let m2 = LexMode::Delim { interp: true, open: i };
                    proof {
                        lemma_push_token(t0, t);
                        lemma_cat_assoc(
                            tokens_view(t0),
                            diags_view(d0),
                            seq![t@],
                            Seq::empty(),
                            lex_from(src@, i + 2, m2),
                        );
                        assert(diags_view(d0) + Seq::<DiagV>::empty() =~= diags_view(d0));
                    }
                    toks.push(t);
                    mode = m2;
                    i = i + 2;
                } else if i + 1 < src.len() && src[i] == B_LBRACE && src[i + 1] == B_PERCENT {
                    let t = Token { tok: Tok::OpenDir, span: Span { lo: i, hi: i + 2 } };
                    let m2 = LexMode::Delim { interp: false, open: i };
                    proof {
                        lemma_push_token(t0, t);
                        lemma_cat_assoc(
                            tokens_view(t0),
                            diags_view(d0),
                            seq![t@],
                            Seq::empty(),
                            lex_from(src@, i + 2, m2),
                        );
                        assert(diags_view(d0) + Seq::<DiagV>::empty() =~= diags_view(d0));
                    }
                    toks.push(t);
                    mode = m2;
                    i = i + 2;
                } else if i + 1 < src.len() && src[i] == B_LBRACE && src[i + 1] == B_HASH {
                    match scan_comment(src, i + 2) {
                        Some(j) => {
                            proof {
                                assert(adv(src@, i + 2, ((j - i) - 2) as nat) == j as int);
                            }
                            i = j;
                        },
                        None => {
                            let d = Diagnostic {
                                stage: Stage::Lex,
                                kind: DiagKind::UnterminatedDelimiter,
                                span: Span { lo: i, hi: src.len() },
                            };
                            proof {
                                lemma_push_diag(d0, d);
                                assert(lex_from(src@, src.len() as int, LexMode::Txt)
                                    == (LexOut { toks: Seq::<TokenV>::empty(), diags: Seq::<
                                    DiagV,
                                >::empty() }));
                            }
                            diags.push(d);
                            i = src.len();
                        },
                    }
                } else {
                    let (content, taken, ok) = scan_text_run(src, i);
                    if ok {
                        let next = i + taken;
                        if next > i {
                            if content.len() > 0 {
                                let t = Token {
                                    tok: Tok::Text(content),
                                    span: Span { lo: i, hi: next },
                                };
                                proof {
                                    lemma_push_token(t0, t);
                                    lemma_cat_assoc(
                                        tokens_view(t0),
                                        diags_view(d0),
                                        seq![t@],
                                        Seq::empty(),
                                        lex_from(src@, next as int, LexMode::Txt),
                                    );
                                    assert(diags_view(d0) + Seq::<DiagV>::empty() =~= diags_view(
                                        d0,
                                    ));
                                }
                                toks.push(t);
                            } else {
                                proof {
                                    assert(Seq::<TokenV>::empty() + lex_from(
                                        src@,
                                        next as int,
                                        LexMode::Txt,
                                    ).toks =~= lex_from(src@, next as int, LexMode::Txt).toks);
                                    assert(Seq::<DiagV>::empty() + lex_from(
                                        src@,
                                        next as int,
                                        LexMode::Txt,
                                    ).diags =~= lex_from(src@, next as int, LexMode::Txt).diags);
                                }
                            }
                            i = next;
                        } else {
                            proof {
                                assert(lex_spec(src@).toks =~= tokens_view(toks@));
                                assert(lex_spec(src@).diags =~= diags_view(diags@));
                            }
                            return (toks, diags);
                        }
                    } else {
                        let epos = i + taken;
                        let hi = if src.len() - epos >= 2 {
                            epos + 2
                        } else {
                            src.len()
                        };
                        let ghost tk: Seq<TokenV> = if content@.len() > 0 {
                            seq![
                                TokenV {
                                    tok: TokV::Text(text_scan(src@, i as int).content),
                                    span: Span { lo: i, hi: epos },
                                },
                            ]
                        } else {
                            Seq::empty()
                        };
                        if content.len() > 0 {
                            let t = Token { tok: Tok::Text(content), span: Span { lo: i, hi: epos } };
                            proof {
                                lemma_push_token(t0, t);
                            }
                            toks.push(t);
                        }
                        let d = Diagnostic {
                            stage: Stage::Lex,
                            kind: DiagKind::InvalidEscape,
                            span: Span { lo: epos, hi },
                        };
                        proof {
                            lemma_push_diag(d0, d);
                            assert(tokens_view(toks@) =~= tokens_view(t0) + tk);
                            lemma_cat_assoc(
                                tokens_view(t0),
                                diags_view(d0),
                                tk,
                                seq![d@],
                                lex_from(src@, hi as int, LexMode::Txt),
                            );
                        }
                        diags.push(d);
                        i = hi;
                    }
                }
            },
            LexMode::Delim { interp, open } => {
                let j = scan_ws(src, i);
                if j >= src.len() {
                    i = j;
                } else if interp && src[j] == B_RBRACE && j + 1 < src.len() && src[j + 1]
                    == B_RBRACE {
                    let t = Token { tok: Tok::CloseInterp, span: Span { lo: j, hi: j + 2 } };
                    proof {
                        lemma_push_token(t0, t);
                        lemma_cat_assoc(
                            tokens_view(t0),
                            diags_view(d0),
                            seq![t@],
                            Seq::empty(),
                            lex_from(src@, j + 2, LexMode::Txt),
                        );
                        assert(diags_view(d0) + Seq::<DiagV>::empty() =~= diags_view(d0));
                    }
                    toks.push(t);
                    mode = LexMode::Txt;
                    i = j + 2;
                } else if !interp && src[j] == B_PERCENT && j + 1 < src.len() && src[j + 1]
                    == B_RBRACE {
                    let t = Token { tok: Tok::CloseDir, span: Span { lo: j, hi: j + 2 } };
                    proof {
                        lemma_push_token(t0, t);
                        lemma_cat_assoc(
                            tokens_view(t0),
                            diags_view(d0),
                            seq![t@],
                            Seq::empty(),
                            lex_from(src@, j + 2, LexMode::Txt),
                        );
                        assert(diags_view(d0) + Seq::<DiagV>::empty() =~= diags_view(d0));
                    }
                    toks.push(t);
                    mode = LexMode::Txt;
                    i = j + 2;
                } else if is_ident_start_b(src[j]) {
                    let k = scan_ident(src, j);
                    let name = copy_range(src, j, k);
                    let t = Token { tok: Tok::Ident(name), span: Span { lo: j, hi: k } };
                    proof {
                        assert(is_ident_char(src@[j as int]));
                        assert(ident_len(src@, j as int) >= 1);
                        assert(k > i);
                        lemma_push_token(t0, t);
                        lemma_cat_assoc(
                            tokens_view(t0),
                            diags_view(d0),
                            seq![t@],
                            Seq::empty(),
                            lex_from(src@, k as int, mode),
                        );
                        assert(diags_view(d0) + Seq::<DiagV>::empty() =~= diags_view(d0));
                    }
                    toks.push(t);
                    i = k;
                } else {
                    let d = Diagnostic {
                        stage: Stage::Lex,
                        kind: DiagKind::UnexpectedByte,
                        span: Span { lo: j, hi: j + 1 },
                    };
                    proof {
                        lemma_push_diag(d0, d);
                        lemma_cat_assoc(
                            tokens_view(t0),
                            diags_view(d0),
                            Seq::empty(),
                            seq![d@],
                            lex_from(src@, j + 1, mode),
                        );
                        assert(tokens_view(t0) + Seq::<TokenV>::empty() =~= tokens_view(t0));
                    }
                    diags.push(d);
                    i = j + 1;
                }
            },
        }
    }
}

} // verus!
