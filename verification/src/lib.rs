//! A compiler for a small embedded fragment language. Source text is lexed,
//! parsed into a flat arena of nodes, validated (reference resolution, cycle
//! detection, nesting limits), and encoded into a compact, versioned,
//! checksummed binary blob. Every stage is a pure function of its inputs, so
//! a compilation is reproducible byte for byte.
use vstd::prelude::*;

pub mod diag;
pub mod ast;
pub mod lexer;
pub mod parser;
pub mod validate;
pub mod encode;
pub mod paths;
pub mod decode;

verus! {

use crate::diag::{Diagnostic, DiagV, diags_view, names_view};

/// Whether compilation stops at the first error or gathers every error it
/// can find before failing.
#[derive(Clone, Copy, PartialEq, Eq, Structural, Debug)]
pub enum ErrorMode {
    FailFast,
    Aggregate,
}

/// Compilation options supplied by the caller.
#[derive(Clone, Debug)]
pub struct Config {
    /// When true, a reference to a fragment that is neither defined in the
    /// source nor listed in `known_fragments` is an error; when false it is
    /// only a warning.
    pub strict_unknown_refs: bool,
    /// Upper bound on combined directive and fragment-reference nesting.
    pub max_nesting_depth: u32,
    /// Upper bound on the size of the encoded blob, in bytes.
    pub max_blob_size: u32,
    /// Stop at the first error, or gather all of them.
    pub error_mode: ErrorMode,
    /// Fragment names the caller promises to supply at load time.
    pub known_fragments: Vec<Vec<u8>>,
}

/// Mathematical model of `Config`.
pub struct ConfigV {
    pub strict_unknown_refs: bool,
    pub max_nesting_depth: u32,
    pub max_blob_size: u32,
    pub error_mode: ErrorMode,
    pub known_fragments: Seq<Seq<u8>>,
}

impl View for Config {
    type V = ConfigV;

    open spec fn view(&self) -> ConfigV {
        ConfigV {
            strict_unknown_refs: self.strict_unknown_refs,
            max_nesting_depth: self.max_nesting_depth,
            max_blob_size: self.max_blob_size,
            error_mode: self.error_mode,
            known_fragments: names_view(self.known_fragments@),
        }
    }
}

impl Default for Config {
    /// Strict references, a nesting limit of 64, no practical size limit,
    /// and full error aggregation.
    fn default() -> (c: Config)
        ensures
            c@ == default_config(),
    {
        let c = Config {
            strict_unknown_refs: true,
            max_nesting_depth: 64,
            max_blob_size: 0xffff_ffff,
            error_mode: ErrorMode::Aggregate,
            known_fragments: Vec::new(),
        };
        proof {
            assert(c@.known_fragments =~= default_config().known_fragments);
        }
        c
    }
}

/// The configuration `Config::default` returns.
pub open spec fn default_config() -> ConfigV {
    ConfigV {
        strict_unknown_refs: true,
        max_nesting_depth: 64,
        max_blob_size: 0xffff_ffff,
        error_mode: ErrorMode::Aggregate,
        known_fragments: Seq::empty(),
    }
}

/// The encoder's output: an immutable byte blob.
#[derive(Clone, Debug, PartialEq, Eq)]
pub struct Blob {
    pub bytes: Vec<u8>,
}

impl View for Blob {
    type V = Seq<u8>;

    open spec fn view(&self) -> Seq<u8> {
        self.bytes@
    }
}

/// A successful compilation: the blob, plus any non-fatal warnings
/// (unresolved references under `strict_unknown_refs = false`).
#[derive(Clone, Debug)]
pub struct Output {
    pub blob: Blob,
    pub warnings: Vec<Diagnostic>,
}

/// Mathematical model of `Output`.
pub struct OutputV {
    pub blob: Seq<u8>,
    pub warnings: Seq<DiagV>,
}

impl View for Output {
    type V = OutputV;

    open spec fn view(&self) -> OutputV {
        OutputV { blob: self.blob@, warnings: diags_view(self.warnings@) }
    }
}

/// In fail-fast mode only the first diagnostic is reported.
pub open spec fn truncated(ds: Seq<DiagV>, mode: ErrorMode) -> Seq<DiagV> {
    if mode == ErrorMode::FailFast && ds.len() > 1 {
        seq![ds[0]]
    } else {
        ds
    }
}

/// The whole pipeline as one function: lex, parse, validate, encode, with
/// diagnostics short-circuiting at the first failing stage. This is the
/// compiler's defining equation; `compile` is proved equal to it, which
/// also makes compilation deterministic.
pub open spec fn compile_spec(src: Seq<u8>, c: ConfigV) -> Result<OutputV, Seq<DiagV>> {
    let lx = crate::lexer::lex_spec(src);
    if lx.diags.len() > 0 {
        Err(truncated(lx.diags, c.error_mode))
    } else {
        let pr = crate::parser::parse_spec(lx.toks);
        if pr.diags.len() > 0 {
            Err(truncated(pr.diags, c.error_mode))
        } else {
            let vo = crate::validate::validate_spec(pr.doc, c);
            if vo.errs.len() > 0 {
                Err(truncated(vo.errs, c.error_mode))
            } else {
                match crate::encode::encode_spec(pr.doc, c.max_blob_size) {
                    Ok(b) => Ok(OutputV { blob: b, warnings: vo.warns }),
                    Err(d) => Err(seq![d]),
                }
            }
        }
    }
}

/// The mathematical value of a compilation result.
pub open spec fn compile_view(r: Result<Output, Vec<Diagnostic>>) -> Result<OutputV, Seq<DiagV>> {
    match r {
        Ok(o) => Ok(o@),
        Err(ds) => Err(diags_view(ds@)),
    }
}

fn truncate_diags(ds: Vec<Diagnostic>, mode: ErrorMode) -> (r: Vec<Diagnostic>)
    requires
        ds@.len() > 0,
    ensures
        diags_view(r@) == truncated(diags_view(ds@), mode),
{
    if matches!(mode, ErrorMode::FailFast) && ds.len() > 1 {
        let ghost d0 = ds@;
        let mut ds = ds;
        ds.truncate(1);
        proof {
            assert(diags_view(ds@) =~= seq![diags_view(d0)[0]]);
        }
        ds
    } else {
        ds
    }
}

/// Compiles fragment source text into a binary blob, or the diagnostics
/// that explain why it cannot be. No blob is ever returned alongside an
/// error; warnings (non-strict unresolved references) accompany success.
pub fn compile(source: &[u8], config: &Config) -> (r: Result<Output, Vec<Diagnostic>>)
    ensures
        compile_view(r) == compile_spec(source@, config@),
{
    let (toks, lex_diags) = crate::lexer::lex(source);
    if lex_diags.len() > 0 {
        return Err(truncate_diags(lex_diags, config.error_mode));
    }
    let (doc, parse_diags) = crate::parser::parse(&toks);
    if parse_diags.len() > 0 {
        return Err(truncate_diags(parse_diags, config.error_mode));
    }
    let (errs, warns) = crate::validate::validate(&doc, config);
    if errs.len() > 0 {
        return Err(truncate_diags(errs, config.error_mode));
    }
    match crate::encode::encode(&doc, config.max_blob_size) {
        Ok(b) => Ok(Output { blob: b, warnings: warns }),
        Err(d) => {
            let mut v: Vec<Diagnostic> = Vec::new();
            let ghost dv = d@;
            v.push(d);
            proof {
                assert(diags_view(v@) =~= seq![dv]);
            }
            Err(v)
        },
    }
}

/// Law: compilation is deterministic. Two results that each satisfy
/// `compile`'s contract for the same source and configuration are equal,
/// so independent runs reproduce byte-identical blobs.
pub proof fn lemma_compile_deterministic(
    src: Seq<u8>,
    c: ConfigV,
    r1: Result<OutputV, Seq<DiagV>>,
    r2: Result<OutputV, Seq<DiagV>>,
)
    requires
        r1 == compile_spec(src, c),
        r2 == compile_spec(src, c),
    ensures
        r1 == r2,
{
}

} // verus!
