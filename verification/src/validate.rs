//! The semantic validator: walks the arena once, resolves every fragment
//! reference against the definitions in the document and the caller's known
//! names, reports duplicate definitions, detects reference cycles among
//! definitions, and enforces the nesting-depth limit (directive nesting and
//! reference expansion combined, with depth values saturating at one past
//! the limit). Every pass is iterative, so hostile input cannot exhaust the
//! call stack.
use vstd::prelude::*;

verus! {

use crate::diag::{Span, Stage, DiagKind, DiagKindV, Diagnostic, DiagV, diags_view, names_view};
use crate::ast::{Node, NodeV, Document, DocV, node_children, bytes_eq};
use crate::{Config, ConfigV};

/// One fragment definition found at the top level.
#[derive(Clone, Debug)]
pub struct Def {
    pub name: Vec<u8>,
    pub root: usize,
    pub span: Span,
}

/// Mathematical model of `Def`.
pub struct DefV {
    pub name: Seq<u8>,
    pub root: usize,
    pub span: Span,
}

impl View for Def {
    type V = DefV;

    open spec fn view(&self) -> DefV {
        DefV { name: self.name@, root: self.root, span: self.span }
    }
}

/// View of a definition list.
pub open spec fn defs_view(s: Seq<Def>) -> Seq<DefV> {
    s.map_values(|d: Def| d@)
}

/// The definitions among the top-level nodes from root position `k` on, in
/// source order.
pub open spec fn defs_from(arena: Seq<NodeV>, roots: Seq<usize>, k: int) -> Seq<DefV>
    decreases roots.len() - k,
{
    if !(0 <= k < roots.len()) {
        Seq::empty()
    } else {
        let r = roots[k];
        let head: Seq<DefV> = if (r as int) < arena.len() {
            match arena[r as int] {
                NodeV::Define { name, span, .. } => seq![DefV { name, root: r, span }],
                _ => Seq::empty(),
            }
        } else {
            Seq::empty()
        };
        head + defs_from(arena, roots, k + 1)
    }
}

/// All definitions of a document.
pub open spec fn defs_of(d: DocV) -> Seq<DefV> {
    defs_from(d.arena, d.roots, 0)
}

/// Whether a definition before position `k` already uses `name`.
pub open spec fn name_before(defs: Seq<DefV>, k: int, name: Seq<u8>) -> bool {
    exists|j: int| 0 <= j < k && defs[j].name == name
}

/// A diagnostic from the validation stage.
pub open spec fn val_diag(kind: DiagKindV, span: Span) -> DiagV {
    DiagV { stage: Stage::Validate, kind, span }
}

/// Duplicate-definition errors, one per later occurrence, in order.
pub open spec fn dup_from(defs: Seq<DefV>, k: int) -> Seq<DiagV>
    decreases defs.len() - k,
{
    if !(0 <= k < defs.len()) {
        Seq::empty()
    } else {
        let head: Seq<DiagV> = if name_before(defs, k, defs[k].name) {
            seq![
                val_diag(
                    DiagKindV::DuplicateDefinition { name: defs[k].name },
                    defs[k].span,
                ),
            ]
        } else {
            Seq::empty()
        };
        head + dup_from(defs, k + 1)
    }
}

/// Whether some definition is named `name`.
pub open spec fn has_def_name(defs: Seq<DefV>, name: Seq<u8>) -> bool {
    exists|j: int| 0 <= j < defs.len() && defs[j].name == name
}

/// Whether the caller's known-fragment list contains `name`.
pub open spec fn name_listed(known: Seq<Seq<u8>>, name: Seq<u8>) -> bool {
    exists|j: int| 0 <= j < known.len() && known[j] == name
}

/// A reference is resolved if the document defines it or the caller
/// promised it.
pub open spec fn resolved(defs: Seq<DefV>, known: Seq<Seq<u8>>, name: Seq<u8>) -> bool {
    has_def_name(defs, name) || name_listed(known, name)
}

/// Errors and warnings from reference resolution.
pub struct RefOut {
    pub errs: Seq<DiagV>,
    pub warns: Seq<DiagV>,
}

/// Resolution diagnostics for the nodes from `k` on, in arena order.
pub open spec fn refs_from(
    arena: Seq<NodeV>,
    k: int,
    defs: Seq<DefV>,
    known: Seq<Seq<u8>>,
    strict: bool,
) -> RefOut
    decreases arena.len() - k,
{
    if !(0 <= k < arena.len()) {
        RefOut { errs: Seq::empty(), warns: Seq::empty() }
    } else {
        let rest = refs_from(arena, k + 1, defs, known, strict);
        let tgt: Option<(Seq<u8>, Span)> = match arena[k] {
            NodeV::Include { target, span } => Some((target, span)),
            NodeV::Call { target, span } => Some((target, span)),
            _ => None,
        };
        match tgt {
            Some((name, span)) => {
                if resolved(defs, known, name) {
                    rest
                } else {
                    let d = seq![val_diag(DiagKindV::UnknownReference { name }, span)];
                    if strict {
                        RefOut { errs: d + rest.errs, warns: rest.warns }
                    } else {
                        RefOut { errs: rest.errs, warns: d + rest.warns }
                    }
                }
            },
            None => rest,
        }
    }
}

/// Whether the subtree rooted at `i` holds an `Include` of `name`.
pub open spec fn contains_inc(arena: Seq<NodeV>, i: int, name: Seq<u8>) -> bool
    decreases i, node_children(arena[i]).len() + 1,
{
    if !(0 <= i < arena.len()) {
        false
    } else {
        match arena[i] {
            NodeV::Include { target, .. } => target == name,
            NodeV::If { children, .. } => ch_or(arena, children, i, name),
            NodeV::For { children, .. } => ch_or(arena, children, i, name),
            NodeV::Define { children, .. } => ch_or(arena, children, i, name),
            _ => false,
        }
    }
}

/// Whether any subtree rooted at an index of `ch` (all below `bound`)
/// holds an `Include` of `name`.
pub open spec fn ch_or(arena: Seq<NodeV>, ch: Seq<usize>, bound: int, name: Seq<u8>) -> bool
    decreases bound, ch.len(),
{
    if ch.len() == 0 {
        false
    } else {
        let head = if (ch[0] as int) < bound {
            contains_inc(arena, ch[0] as int, name)
        } else {
            false
        };
        head || ch_or(arena, ch.drop_first(), bound, name)
    }
}

/// The direct reference graph among definitions: `a` uses `b` when `a`'s
/// body holds an `Include` of `b`'s name.
pub open spec fn adj_matrix(arena: Seq<NodeV>, defs: Seq<DefV>) -> Seq<Seq<bool>> {
    Seq::new(
        defs.len(),
        |a: int| Seq::new(defs.len(), |b: int| contains_inc(arena, defs[a].root as int, defs[b].name)),
    )
}

/// One transitive-closure step through intermediate vertex `k`.
pub open spec fn closure_step(m: Seq<Seq<bool>>, k: int) -> Seq<Seq<bool>> {
    Seq::new(
        m.len(),
        |a: int| Seq::new(m.len(), |b: int| m[a][b] || (m[a][k] && m[k][b])),
    )
}

/// The reachability matrix after routing through the first `k` vertices.
pub open spec fn closure(m: Seq<Seq<bool>>, k: nat) -> Seq<Seq<bool>>
    decreases k,
{
    if k == 0 {
        m
    } else {
        closure_step(closure(m, (k - 1) as nat), k - 1)
    }
}

/// The first definition that can reach itself, if any.
pub open spec fn first_cyclic(reach: Seq<Seq<bool>>, k: int) -> Option<int>
    decreases reach.len() - k,
{
    if !(0 <= k < reach.len()) {
        None
    } else if reach[k][k] {
        Some(k)
    } else {
        first_cyclic(reach, k + 1)
    }
}

/// The first successor of `cur` (from `e` on) that is `d` itself or can
/// reach `d`.
pub open spec fn next_hop(
    adj: Seq<Seq<bool>>,
    reach: Seq<Seq<bool>>,
    d: int,
    cur: int,
    e: int,
) -> Option<int>
    decreases adj.len() - e,
{
    if !(0 <= e < adj.len()) {
        None
    } else if adj[cur][e] && (e == d || reach[e][d]) {
        Some(e)
    } else {
        next_hop(adj, reach, d, cur, e + 1)
    }
}

/// Follows `next_hop` from `cur` until the chain closes at `d` (or fuel
/// runs out on a tangled graph), returning the definitions visited.
pub open spec fn cycle_path(
    adj: Seq<Seq<bool>>,
    reach: Seq<Seq<bool>>,
    d: int,
    cur: int,
    fuel: nat,
) -> Seq<int>
    decreases fuel,
{
    if fuel == 0 {
        Seq::empty()
    } else {
        match next_hop(adj, reach, d, cur, 0) {
            Some(e) => {
                if e == d {
                    Seq::empty()
                } else {
                    seq![e] + cycle_path(adj, reach, d, e, (fuel - 1) as nat)
                }
            },
            None => Seq::empty(),
        }
    }
}

/// The names of the definitions at `path`'s indices.
pub open spec fn path_names(defs: Seq<DefV>, path: Seq<int>) -> Seq<Seq<u8>>
    decreases path.len(),
{
    if path.len() == 0 {
        Seq::empty()
    } else {
        let head: Seq<Seq<u8>> = if 0 <= path[0] < defs.len() {
            seq![defs[path[0]].name]
        } else {
            Seq::empty()
        };
        head + path_names(defs, path.drop_first())
    }
}

/// The cycle diagnostic, if some definition can reach itself: the chain of
/// definition names starting at the first cyclic definition.
pub open spec fn cycle_diags(arena: Seq<NodeV>, defs: Seq<DefV>) -> Seq<DiagV> {
    let adj = adj_matrix(arena, defs);
    let reach = closure(adj, defs.len());
    match first_cyclic(reach, 0) {
        None => Seq::empty(),
        Some(d) => {
            let names = seq![defs[d].name] + path_names(
                defs,
                cycle_path(adj, reach, d, d, defs.len()),
            );
            seq![val_diag(DiagKindV::CyclicInclude { cycle: names }, defs[d].span)]
        },
    }
}

/// `x + 1`, saturating at `cap`.
pub open spec fn sat_inc(x: u64, cap: u64) -> u64 {
    if x >= cap {
        cap
    } else {
        (x + 1) as u64
    }
}

/// The position of the definition named `name`, if any.
pub open spec fn def_index(defs: Seq<DefV>, name: Seq<u8>, j: int) -> Option<int>
    decreases defs.len() - j,
{
    if !(0 <= j < defs.len()) {
        None
    } else if defs[j].name == name {
        Some(j)
    } else {
        def_index(defs, name, j + 1)
    }
}

/// The nesting depth of the subtree at `i`, given estimated body depths
/// `ddep` for every definition; saturates at `cap`. Blocks add one level;
/// an `Include` adds one level plus its target's body depth; `Call` is
/// resolved by the runtime and counts nothing here.
pub open spec fn ndepth(
    arena: Seq<NodeV>,
    i: int,
    defs: Seq<DefV>,
    ddep: Seq<u64>,
    cap: u64,
) -> u64
    decreases i, node_children(arena[i]).len() + 1,
{
    if !(0 <= i < arena.len()) {
        0
    } else {
        match arena[i] {
            NodeV::Include { target, .. } => {
                let base: u64 = match def_index(defs, target, 0) {
                    Some(j) => if 0 <= j < ddep.len() {
                        ddep[j]
                    } else {
                        0
                    },
                    None => 0,
                };
                sat_inc(base, cap)
            },
            NodeV::If { children, .. } => sat_inc(ch_dmax(arena, children, i, defs, ddep, cap), cap),
            NodeV::For { children, .. } => sat_inc(ch_dmax(arena, children, i, defs, ddep, cap), cap),
            NodeV::Define { children, .. } => sat_inc(
                ch_dmax(arena, children, i, defs, ddep, cap),
                cap,
            ),
            _ => 0,
        }
    }
}

/// The largest `ndepth` over the indices of `ch` (all below `bound`).
pub open spec fn ch_dmax(
    arena: Seq<NodeV>,
    ch: Seq<usize>,
    bound: int,
    defs: Seq<DefV>,
    ddep: Seq<u64>,
    cap: u64,
) -> u64
    decreases bound, ch.len(),
{
    if ch.len() == 0 {
        0
    } else {
        let head: u64 = if (ch[0] as int) < bound {
            ndepth(arena, ch[0] as int, defs, ddep, cap)
        } else {
            0
        };
        let rest = ch_dmax(arena, ch.drop_first(), bound, defs, ddep, cap);
        if head >= rest {
            head
        } else {
            rest
        }
    }
}

/// The body depth of definition `e` under the estimates `ddep`.
pub open spec fn body_depth(
    arena: Seq<NodeV>,
    defs: Seq<DefV>,
    e: int,
    ddep: Seq<u64>,
    cap: u64,
) -> u64 {
    let r = defs[e].root as int;
    if 0 <= r < arena.len() {
        ch_dmax(arena, node_children(arena[r]), r, defs, ddep, cap)
    } else {
        0
    }
}

/// `k` rounds of recomputing every definition's body depth, starting from
/// zero. As many rounds as there are definitions reach the fixed point on a
/// cycle-free graph.
pub open spec fn relax(arena: Seq<NodeV>, defs: Seq<DefV>, k: nat, cap: u64) -> Seq<u64>
    decreases k,
{
    if k == 0 {
        Seq::new(defs.len(), |e: int| 0u64)
    } else {
        let p = relax(arena, defs, (k - 1) as nat, cap);
        Seq::new(defs.len(), |e: int| body_depth(arena, defs, e, p, cap))
    }
}

/// The document's combined nesting depth, saturated at `cap`.
pub open spec fn doc_depth(d: DocV, cap: u64) -> u64 {
    let defs = defs_of(d);
    let ddep = relax(d.arena, defs, defs.len(), cap);
    ch_dmax(d.arena, d.roots, d.arena.len() as int, defs, ddep, cap)
}

/// The depth diagnostic: present exactly when the document's depth exceeds
/// the limit.
pub open spec fn depth_diags(d: DocV, limit: u32) -> Seq<DiagV> {
    let found = doc_depth(d, (limit + 1) as u64);
    if found > limit {
        seq![
            val_diag(
                DiagKindV::NestingTooDeep { limit, actual: found },
                Span { lo: 0, hi: 0 },
            ),
        ]
    } else {
        Seq::empty()
    }
}

/// Everything validation produces.
pub struct ValOut {
    pub errs: Seq<DiagV>,
    pub warns: Seq<DiagV>,
}

/// The validator's defining equation: duplicate-definition errors, then
/// reference-resolution diagnostics in arena order, then the cycle
/// diagnostic, then the depth diagnostic.
pub open spec fn validate_spec(d: DocV, c: ConfigV) -> ValOut {
    let defs = defs_of(d);
    let refs = refs_from(d.arena, 0, defs, c.known_fragments, c.strict_unknown_refs);
    ValOut {
        errs: dup_from(defs, 0) + refs.errs + cycle_diags(d.arena, defs) + depth_diags(
            d,
            c.max_nesting_depth,
        ),
        warns: refs.warns,
    }
}

/// View of a boolean matrix held as vectors.
pub open spec fn matrix_view(s: Seq<Vec<bool>>) -> Seq<Seq<bool>> {
    s.map_values(|r: Vec<bool>| r@)
}

/// The larger of two depths.
pub open spec fn u64_max(a: u64, b: u64) -> u64 {
    if a >= b {
        a
    } else {
        b
    }
}

/// Collects the top-level definitions of a document, in source order.
pub fn collect_defs(doc: &Document) -> (defs: Vec<Def>)
    ensures
        defs_view(defs@) == defs_of(doc@),
{
    let mut defs: Vec<Def> = Vec::new();
    let mut k: usize = 0;
    let ghost av = crate::ast::nodes_view(doc.arena@);
    while k < doc.roots.len()
        invariant
            k <= doc.roots.len(),
            av == crate::ast::nodes_view(doc.arena@),
            defs_of(doc@) == defs_view(defs@) + defs_from(av, doc.roots@, k as int),
        decreases doc.roots.len() - k,
    {
        let ghost d0 = defs@;
        let r = doc.roots[k];
        if r < doc.arena.len() {
            proof {
                assert(av[r as int] == doc.arena@[r as int]@);
            }
            match &doc.arena[r] {
                Node::Define { name, span, .. } => {
                    let d = Def { name: crate::ast::dup_bytes(name), root: r, span: *span };
                    defs.push(d);
                    proof {
                        assert(defs_view(defs@) =~= defs_view(d0) + seq![d@]);
                        assert(defs_view(d0) + defs_from(av, doc.roots@, k as int) =~= defs_view(
                            defs@,
                        ) + defs_from(av, doc.roots@, k + 1));
                    }
                },
                _ => {
                    proof {
                        assert(defs_view(d0) + defs_from(av, doc.roots@, k as int) =~= defs_view(
                            defs@,
                        ) + defs_from(av, doc.roots@, k + 1));
                    }
                },
            }
        } else {
            proof {
                assert(defs_view(d0) + defs_from(av, doc.roots@, k as int) =~= defs_view(defs@)
                    + defs_from(av, doc.roots@, k + 1));
            }
        }
        k = k + 1;
    }
    proof {
        assert(defs_view(defs@) + defs_from(av, doc.roots@, doc.roots@.len() as int) =~= defs_view(
            defs@,
        ));
    }
    defs
}

/// The duplicate-definition errors of `defs`.
fn dup_errs(defs: &Vec<Def>) -> (out: Vec<Diagnostic>)
    ensures
        diags_view(out@) == dup_from(defs_view(defs@), 0),
{
    let ghost dv = defs_view(defs@);
    let mut out: Vec<Diagnostic> = Vec::new();
    let mut k: usize = 0;
    while k < defs.len()
        invariant
            k <= defs.len(),
            dv == defs_view(defs@),
            dup_from(dv, 0) == diags_view(out@) + dup_from(dv, k as int),
        decreases defs.len() - k,
    {
        let ghost o0 = out@;
        let mut found = false;
        let mut j: usize = 0;
        while j < k
            invariant
                j <= k,
                k < defs.len(),
                dv == defs_view(defs@),
                found == (exists|q: int| 0 <= q < j && dv[q].name == dv[k as int].name),
            decreases k - j,
        {
            if bytes_eq(&defs[j].name, &defs[k].name) {
                proof {
                    assert(dv[j as int].name == dv[k as int].name);
                }
                found = true;
            }
            j = j + 1;
        }
        proof {
            assert(found == name_before(dv, k as int, dv[k as int].name));
        }
        if found {
            let d = Diagnostic {
                stage: Stage::Validate,
                kind: DiagKind::DuplicateDefinition { name: crate::ast::dup_bytes(&defs[k].name) },
                span: defs[k].span,
            };
            out.push(d);
            proof {
                assert(diags_view(out@) =~= diags_view(o0) + seq![d@]);
                assert(diags_view(o0) + dup_from(dv, k as int) =~= diags_view(out@) + dup_from(
                    dv,
                    k + 1,
                ));
            }
        } else {
            proof {
                assert(diags_view(o0) + dup_from(dv, k as int) =~= diags_view(out@) + dup_from(
                    dv,
                    k + 1,
                ));
            }
        }
        k = k + 1;
    }
    proof {
        assert(diags_view(out@) + dup_from(dv, defs@.len() as int) =~= diags_view(out@));
    }
    out
}

/// The position of the first definition named `name`, if any.
fn find_def(defs: &Vec<Def>, name: &Vec<u8>) -> (r: Option<usize>)
    ensures
        match r {
            Some(j) => j < defs.len() && def_index(defs_view(defs@), name@, 0) == Some(j as int),
            None => def_index(defs_view(defs@), name@, 0) is None,
        },
        (r is Some) == has_def_name(defs_view(defs@), name@),
{
    let ghost dv = defs_view(defs@);
    let mut j: usize = 0;
    while j < defs.len()
        invariant
            j <= defs.len(),
            dv == defs_view(defs@),
            def_index(dv, name@, 0) == def_index(dv, name@, j as int),
            forall|q: int| 0 <= q < j ==> dv[q].name != name@,
        decreases defs.len() - j,
    {
        if bytes_eq(&defs[j].name, name) {
            proof {
                assert(dv[j as int].name == name@);
                assert(def_index(dv, name@, j as int) == Some(j as int));
            }
            return Some(j);
        }
        j = j + 1;
    }
    proof {
        assert(def_index(dv, name@, defs@.len() as int) is None);
        assert(!has_def_name(dv, name@)) by {
            if has_def_name(dv, name@) {
                let q = choose|q: int| 0 <= q < dv.len() && dv[q].name == name@;
                assert(dv[q].name != name@);
            }
        }
    }
    None
}

/// Whether `name` is among the caller-supplied known fragments.
fn find_known(known: &Vec<Vec<u8>>, name: &Vec<u8>) -> (r: bool)
    ensures
        r == name_listed(names_view(known@), name@),
{
    let ghost kv = names_view(known@);
    let mut j: usize = 0;
    while j < known.len()
        invariant
            j <= known.len(),
            kv == names_view(known@),
            forall|q: int| 0 <= q < j ==> kv[q] != name@,
        decreases known.len() - j,
    {
        if bytes_eq(&known[j], name) {
            proof {
                assert(kv[j as int] == name@);
            }
            return true;
        }
        j = j + 1;
    }
    proof {
        assert(!name_listed(kv, name@)) by {
            if name_listed(kv, name@) {
                let q = choose|q: int| 0 <= q < kv.len() && kv[q] == name@;
                assert(kv[q] != name@);
            }
        }
    }
    false
}

/// Reference-resolution diagnostics over the whole arena, in order.
fn ref_scan(doc: &Document, defs: &Vec<Def>, cfg: &Config) -> (r: (Vec<Diagnostic>, Vec<Diagnostic>))
    ensures
        ({
            let o = refs_from(
                crate::ast::nodes_view(doc.arena@),
                0,
                defs_view(defs@),
                names_view(cfg.known_fragments@),
                cfg.strict_unknown_refs,
            );
            &&& diags_view(r.0@) == o.errs
            &&& diags_view(r.1@) == o.warns
        }),
{
    let ghost av = crate::ast::nodes_view(doc.arena@);
    let ghost dv = defs_view(defs@);
    let ghost kv = names_view(cfg.known_fragments@);
    let strict = cfg.strict_unknown_refs;
    let mut errs: Vec<Diagnostic> = Vec::new();
    let mut warns: Vec<Diagnostic> = Vec::new();
    let mut k: usize = 0;
    while k < doc.arena.len()
        invariant
            k <= doc.arena.len(),
            av == crate::ast::nodes_view(doc.arena@),
            dv == defs_view(defs@),
            kv == names_view(cfg.known_fragments@),
            strict == cfg.strict_unknown_refs,
            refs_from(av, 0, dv, kv, strict).errs == diags_view(errs@) + refs_from(
                av,
                k as int,
                dv,
                kv,
                strict,
            ).errs,
            refs_from(av, 0, dv, kv, strict).warns == diags_view(warns@) + refs_from(
                av,
                k as int,
                dv,
                kv,
                strict,
            ).warns,
        decreases doc.arena.len() - k,
    {
        let ghost e0 = errs@;
        let ghost w0 = warns@;
        proof {
            assert(av[k as int] == doc.arena@[k as int]@);
        }
        let tgt: Option<(&Vec<u8>, Span)> = match &doc.arena[k] {
            Node::Include { target, span } => Some((target, *span)),
            Node::Call { target, span } => Some((target, *span)),
            _ => None,
        };
        match tgt {
            Some((name, span)) => {
                let ok = match find_def(defs, name) {
                    Some(_) => true,
                    None => find_known(&cfg.known_fragments, name),
                };
                proof {
                    assert(ok == resolved(dv, kv, name@));
                }
                if !ok {
                    let d = Diagnostic {
                        stage: Stage::Validate,
                        kind: DiagKind::UnknownReference { name: crate::ast::dup_bytes(name) },
                        span,
                    };
                    if strict {
                        errs.push(d);
                        proof {
                            assert(diags_view(errs@) =~= diags_view(e0) + seq![d@]);
                        }
                    } else {
                        warns.push(d);
                        proof {
                            assert(diags_view(warns@) =~= diags_view(w0) + seq![d@]);
                        }
                    }
                }
            },
            None => {},
        }
        proof {
            assert(diags_view(e0) + refs_from(av, k as int, dv, kv, strict).errs =~= diags_view(
                errs@,
            ) + refs_from(av, k + 1, dv, kv, strict).errs);
            assert(diags_view(w0) + refs_from(av, k as int, dv, kv, strict).warns =~= diags_view(
                warns@,
            ) + refs_from(av, k + 1, dv, kv, strict).warns);
        }
        k = k + 1;
    }
    proof {
        assert(diags_view(errs@) + refs_from(av, doc.arena@.len() as int, dv, kv, strict).errs
            =~= diags_view(errs@));
        assert(diags_view(warns@) + refs_from(av, doc.arena@.len() as int, dv, kv, strict).warns
            =~= diags_view(warns@));
    }
    (errs, warns)
}

/// Disjunction of the recorded flags over a child list, skipping indices at
/// or above `bound`.
fn or_children(
    flags: &Vec<bool>,
    ch: &Vec<usize>,
    bound: usize,
    Ghost(av): Ghost<Seq<NodeV>>,
    Ghost(name): Ghost<Seq<u8>>,
) -> (r: bool)
    requires
        bound <= flags@.len(),
        forall|q: int| 0 <= q < bound ==> flags@[q] == contains_inc(av, q, name),
    ensures
        r == ch_or(av, ch@, bound as int, name),
{
    let mut acc = false;
    let mut t: usize = 0;
    proof {
        assert(ch@.skip(0) =~= ch@);
    }
    while t < ch.len()
        invariant
            t <= ch.len(),
            bound <= flags@.len(),
            forall|q: int| 0 <= q < bound ==> flags@[q] == contains_inc(av, q, name),
            ch_or(av, ch@, bound as int, name) == (acc || ch_or(
                av,
                ch@.skip(t as int),
                bound as int,
                name,
            )),
        decreases ch.len() - t,
    {
        let c = ch[t];
        proof {
            assert(ch@.skip(t as int)[0] == ch@[t as int]);
            assert(ch@.skip(t as int).drop_first() =~= ch@.skip(t + 1));
        }
        if c < bound {
            if flags[c] {
                acc = true;
            }
        }
        t = t + 1;
    }
    proof {
        assert(ch@.skip(ch@.len() as int).len() == 0);
    }
    acc
}

/// For every node, whether its subtree holds an `Include` of `name`,
/// computed bottom-up.
fn inc_flags(arena: &Vec<Node>, name: &Vec<u8>) -> (v: Vec<bool>)
    ensures
        v@.len() == arena@.len(),
        forall|i: int|
            0 <= i < arena@.len() ==> v@[i] == contains_inc(
                crate::ast::nodes_view(arena@),
                i,
                name@,
            ),
{
    let ghost av = crate::ast::nodes_view(arena@);
    let mut v: Vec<bool> = Vec::new();
    let mut i: usize = 0;
    while i < arena.len()
        invariant
            i <= arena.len(),
            v@.len() == i,
            av == crate::ast::nodes_view(arena@),
            forall|q: int| 0 <= q < i ==> v@[q] == contains_inc(av, q, name@),
        decreases arena.len() - i,
    {
        proof {
            assert(av[i as int] == arena@[i as int]@);
        }
        let b = match &arena[i] {
            Node::Include { target, .. } => bytes_eq(target, name),
            Node::If { children, .. } => or_children(&v, children, i, Ghost(av), Ghost(name@)),
            Node::For { children, .. } => or_children(&v, children, i, Ghost(av), Ghost(name@)),
            Node::Define { children, .. } => or_children(&v, children, i, Ghost(av), Ghost(name@)),
            _ => false,
        };
        proof {
            assert(b == contains_inc(av, i as int, name@));
        }
        v.push(b);
        i = i + 1;
    }
    v
}

/// The direct reference matrix among definitions.
fn build_adj(arena: &Vec<Node>, defs: &Vec<Def>) -> (m: Vec<Vec<bool>>)
    ensures
        matrix_view(m@) == adj_matrix(crate::ast::nodes_view(arena@), defs_view(defs@)),
        m@.len() == defs@.len(),
        forall|p: int| 0 <= p < m@.len() ==> (#[trigger] m@[p])@.len() == defs@.len(),
{
    let ghost av = crate::ast::nodes_view(arena@);
    let ghost dv = defs_view(defs@);
    let mut m: Vec<Vec<bool>> = Vec::new();
    let mut a: usize = 0;
    while a < defs.len()
        invariant
            a <= defs.len(),
            av == crate::ast::nodes_view(arena@),
            dv == defs_view(defs@),
            m@.len() == a,
            forall|p: int| 0 <= p < a ==> (#[trigger] m@[p])@.len() == defs@.len(),
            forall|p: int| 0 <= p < a ==> (#[trigger] m@[p])@ == adj_matrix(av, dv)[p],
        decreases defs.len() - a,
    {
        let mut row: Vec<bool> = Vec::new();
        let mut b: usize = 0;
        while b < defs.len()
            invariant
                b <= defs.len(),
                a < defs.len(),
                av == crate::ast::nodes_view(arena@),
                dv == defs_view(defs@),
                row@.len() == b,
                forall|q: int|
                    0 <= q < b ==> row@[q] == contains_inc(av, dv[a as int].root as int, dv[q].name),
            decreases defs.len() - b,
        {
            let flags = inc_flags(arena, &defs[b].name);
            let r = defs[a].root;
            let val = if r < flags.len() {
                flags[r]
            } else {
                false
            };
            proof {
                if r >= flags.len() {
                    assert(dv[a as int].root as int >= av.len());
                    assert(val == contains_inc(av, dv[a as int].root as int, dv[b as int].name));
                }
                assert(dv[b as int].name == defs@[b as int]@.name);
            }
            row.push(val);
            b = b + 1;
        }
        proof {
            assert(row@ =~= adj_matrix(av, dv)[a as int]);
        }
        m.push(row);
        a = a + 1;
    }
    proof {
        assert(matrix_view(m@) =~~= adj_matrix(av, dv));
    }
    m
}

/// The transitive closure of a square boolean matrix.
fn trans_closure(m: &Vec<Vec<bool>>) -> (r: Vec<Vec<bool>>)
    requires
        forall|p: int| 0 <= p < m@.len() ==> (#[trigger] m@[p])@.len() == m@.len(),
    ensures
        matrix_view(r@) == closure(matrix_view(m@), m@.len() as nat),
        r@.len() == m@.len(),
        forall|p: int| 0 <= p < r@.len() ==> (#[trigger] r@[p])@.len() == m@.len(),
{
    let ghost m0 = matrix_view(m@);
    let n = m.len();
    let mut cur: Vec<Vec<bool>> = Vec::new();
    let mut c: usize = 0;
    while c < n
        invariant
            c <= n,
            n == m@.len(),
            cur@.len() == c,
            forall|p: int| 0 <= p < m@.len() ==> (#[trigger] m@[p])@.len() == m@.len(),
            forall|p: int| 0 <= p < c ==> (#[trigger] cur@[p])@ == matrix_view(m@)[p],
            forall|p: int| 0 <= p < c ==> (#[trigger] cur@[p])@.len() == n,
        decreases n - c,
    {
        let row = crate::ast::dup_bools(&m[c]);
        cur.push(row);
        c = c + 1;
    }
    proof {
        assert(matrix_view(cur@) =~~= closure(m0, 0));
    }
    let mut k: usize = 0;
    while k < n
        invariant
            k <= n,
            n == m@.len(),
            m0 == matrix_view(m@),
            cur@.len() == n,
            forall|p: int| 0 <= p < n ==> (#[trigger] cur@[p])@.len() == n,
            matrix_view(cur@) == closure(m0, k as nat),
        decreases n - k,
    {
        let mut next: Vec<Vec<bool>> = Vec::new();
        let mut a: usize = 0;
        while a < n
            invariant
                a <= n,
                k < n,
                n == m@.len(),
                cur@.len() == n,
                forall|p: int| 0 <= p < n ==> (#[trigger] cur@[p])@.len() == n,
                next@.len() == a,
                forall|p: int|
                    0 <= p < a ==> (#[trigger] next@[p])@ == closure_step(
                        matrix_view(cur@),
                        k as int,
                    )[p],
            decreases n - a,
        {
            let mut row: Vec<bool> = Vec::new();
            let mut b: usize = 0;
            while b < n
                invariant
                    b <= n,
                    a < n,
                    k < n,
                    n == m@.len(),
                    cur@.len() == n,
                    forall|p: int| 0 <= p < n ==> (#[trigger] cur@[p])@.len() == n,
                    row@.len() == b,
                    forall|q: int|
                        0 <= q < b ==> row@[q] == (matrix_view(cur@)[a as int][q] || (matrix_view(
                            cur@,
                        )[a as int][k as int] && matrix_view(cur@)[k as int][q])),
                decreases n - b,
            {
                let val = cur[a][b] || (cur[a][k] && cur[k][b]);
                row.push(val);
                b = b + 1;
            }
            proof {
                assert(row@ =~= closure_step(matrix_view(cur@), k as int)[a as int]);
            }
            next.push(row);
            a = a + 1;
        }
        proof {
            assert(matrix_view(next@) =~~= closure_step(matrix_view(cur@), k as int));
        }
        cur = next;
        k = k + 1;
    }
    cur
}

/// The first definition that can reach itself, if any.
fn find_first_cyclic(reach: &Vec<Vec<bool>>) -> (r: Option<usize>)
    requires
        forall|p: int| 0 <= p < reach@.len() ==> (#[trigger] reach@[p])@.len() == reach@.len(),
    ensures
        match r {
            Some(d) => d < reach@.len() && first_cyclic(matrix_view(reach@), 0) == Some(d as int),
            None => first_cyclic(matrix_view(reach@), 0) is None,
        },
{
    let ghost rv = matrix_view(reach@);
    let mut k: usize = 0;
    while k < reach.len()
        invariant
            k <= reach.len(),
            rv == matrix_view(reach@),
            forall|p: int| 0 <= p < reach@.len() ==> (#[trigger] reach@[p])@.len() == reach@.len(),
            first_cyclic(rv, 0) == first_cyclic(rv, k as int),
        decreases reach.len() - k,
    {
        if reach[k][k] {
            proof {
                assert(rv[k as int][k as int]);
            }
            return Some(k);
        }
        k = k + 1;
    }
    None
}

/// The first suitable successor of `cur`, mirroring `next_hop`.
fn next_hop_b(adj: &Vec<Vec<bool>>, reach: &Vec<Vec<bool>>, d: usize, cur: usize) -> (r: Option<
    usize,
>)
    requires
        adj@.len() == reach@.len(),
        forall|p: int| 0 <= p < adj@.len() ==> (#[trigger] adj@[p])@.len() == adj@.len(),
        forall|p: int| 0 <= p < reach@.len() ==> (#[trigger] reach@[p])@.len() == reach@.len(),
        cur < adj@.len(),
        d < adj@.len(),
    ensures
        match r {
            Some(e) => e < adj@.len() && next_hop(
                matrix_view(adj@),
                matrix_view(reach@),
                d as int,
                cur as int,
                0,
            ) == Some(e as int),
            None => next_hop(matrix_view(adj@), matrix_view(reach@), d as int, cur as int, 0)
                is None,
        },
{
    let ghost a_v = matrix_view(adj@);
    let ghost r_v = matrix_view(reach@);
    let mut e: usize = 0;
    while e < adj.len()
        invariant
            e <= adj.len(),
            a_v == matrix_view(adj@),
            r_v == matrix_view(reach@),
            adj@.len() == reach@.len(),
            cur < adj@.len(),
            d < adj@.len(),
            forall|p: int| 0 <= p < adj@.len() ==> (#[trigger] adj@[p])@.len() == adj@.len(),
            forall|p: int| 0 <= p < reach@.len() ==> (#[trigger] reach@[p])@.len() == reach@.len(),
            next_hop(a_v, r_v, d as int, cur as int, 0) == next_hop(
                a_v,
                r_v,
                d as int,
                cur as int,
                e as int,
            ),
        decreases adj.len() - e,
    {
        if adj[cur][e] && (e == d || reach[e][d]) {
            return Some(e);
        }
        e = e + 1;
    }
    None
}

/// The chain of definition names of a detected cycle, starting at `d`.
fn cycle_names(
    adj: &Vec<Vec<bool>>,
    reach: &Vec<Vec<bool>>,
    defs: &Vec<Def>,
    d: usize,
) -> (names: Vec<Vec<u8>>)
    requires
        adj@.len() == defs@.len(),
        reach@.len() == defs@.len(),
        forall|p: int| 0 <= p < adj@.len() ==> (#[trigger] adj@[p])@.len() == adj@.len(),
        forall|p: int| 0 <= p < reach@.len() ==> (#[trigger] reach@[p])@.len() == reach@.len(),
        d < defs@.len(),
    ensures
        names_view(names@) == seq![defs_view(defs@)[d as int].name] + path_names(
            defs_view(defs@),
            cycle_path(
                matrix_view(adj@),
                matrix_view(reach@),
                d as int,
                d as int,
                defs@.len() as nat,
            ),
        ),
{
    let ghost a_v = matrix_view(adj@);
    let ghost r_v = matrix_view(reach@);
    let ghost dv = defs_view(defs@);
    let mut names: Vec<Vec<u8>> = Vec::new();
    names.push(crate::ast::dup_bytes(&defs[d].name));
    proof {
        assert(names_view(names@) =~= seq![dv[d as int].name]);
    }
    let mut cur = d;
    let mut fuel = defs.len();
    loop
        invariant
            cur < defs@.len(),
            fuel <= defs@.len(),
            a_v == matrix_view(adj@),
            r_v == matrix_view(reach@),
            dv == defs_view(defs@),
            adj@.len() == defs@.len(),
            reach@.len() == defs@.len(),
            d < defs@.len(),
            forall|p: int| 0 <= p < adj@.len() ==> (#[trigger] adj@[p])@.len() == adj@.len(),
            forall|p: int| 0 <= p < reach@.len() ==> (#[trigger] reach@[p])@.len() == reach@.len(),
            seq![dv[d as int].name] + path_names(
                dv,
                cycle_path(a_v, r_v, d as int, d as int, defs@.len() as nat),
            ) == names_view(names@) + path_names(
                dv,
                cycle_path(a_v, r_v, d as int, cur as int, fuel as nat),
            ),
        decreases fuel,
    {
        let ghost n0 = names@;
        if fuel == 0 {
            proof {
                assert(names_view(names@) + path_names(
                    dv,
                    cycle_path(a_v, r_v, d as int, cur as int, 0),
                ) =~= names_view(names@));
            }
            return names;
        }
        match next_hop_b(adj, reach, d, cur) {
            None => {
                proof {
                    assert(names_view(names@) + path_names(
                        dv,
                        cycle_path(a_v, r_v, d as int, cur as int, fuel as nat),
                    ) =~= names_view(names@));
                }
                return names;
            },
            Some(e) => {
                if e == d {
                    proof {
                        assert(names_view(names@) + path_names(
                            dv,
                            cycle_path(a_v, r_v, d as int, cur as int, fuel as nat),
                        ) =~= names_view(names@));
                    }
                    return names;
                }
                names.push(crate::ast::dup_bytes(&defs[e].name));
                proof {
                    let p_old = cycle_path(a_v, r_v, d as int, cur as int, fuel as nat);
                    let p_new = cycle_path(a_v, r_v, d as int, e as int, (fuel - 1) as nat);
                    assert(p_old =~= seq![e as int] + p_new);
                    assert(p_old.drop_first() =~= p_new);
                    assert(path_names(dv, p_old) =~= seq![dv[e as int].name] + path_names(
                        dv,
                        p_new,
                    ));
                    assert(names_view(names@) =~= names_view(n0) + seq![dv[e as int].name]);
                    assert(names_view(n0) + path_names(dv, p_old) =~= names_view(names@)
                        + path_names(dv, p_new));
                }
                cur = e;
                fuel = fuel - 1;
            },
        }
    }
}

fn sat_inc_b(x: u64, cap: u64) -> (r: u64)
    ensures
        r == sat_inc(x, cap),
{
    if x >= cap {
        cap
    } else {
        x + 1
    }
}

/// The largest recorded depth over a child list, skipping indices at or
/// above `bound`.
fn dmax_children(
    vals: &Vec<u64>,
    ch: &Vec<usize>,
    bound: usize,
    Ghost(av): Ghost<Seq<NodeV>>,
    Ghost(dv): Ghost<Seq<DefV>>,
    Ghost(dd): Ghost<Seq<u64>>,
    cap: u64,
) -> (r: u64)
    requires
        bound <= vals@.len(),
        forall|q: int| 0 <= q < bound ==> vals@[q] == ndepth(av, q, dv, dd, cap),
    ensures
        r == ch_dmax(av, ch@, bound as int, dv, dd, cap),
{
    let mut acc: u64 = 0;
    let mut t: usize = 0;
    proof {
        assert(ch@.skip(0) =~= ch@);
    }
    while t < ch.len()
        invariant
            t <= ch.len(),
            bound <= vals@.len(),
            forall|q: int| 0 <= q < bound ==> vals@[q] == ndepth(av, q, dv, dd, cap),
            ch_dmax(av, ch@, bound as int, dv, dd, cap) == u64_max(
                acc,
                ch_dmax(av, ch@.skip(t as int), bound as int, dv, dd, cap),
            ),
        decreases ch.len() - t,
    {
        let c = ch[t];
        proof {
            assert(ch@.skip(t as int)[0] == ch@[t as int]);
            assert(ch@.skip(t as int).drop_first() =~= ch@.skip(t + 1));
        }
        if c < bound {
            let x = vals[c];
            if x > acc {
                acc = x;
            }
        }
        t = t + 1;
    }
    proof {
        assert(ch@.skip(ch@.len() as int).len() == 0);
    }
    acc
}

/// The depth of every subtree, computed bottom-up under the estimates `dd`.
fn depth_flags(arena: &Vec<Node>, defs: &Vec<Def>, dd: &Vec<u64>, cap: u64) -> (v: Vec<u64>)
    ensures
        v@.len() == arena@.len(),
        forall|i: int|
            0 <= i < arena@.len() ==> v@[i] == ndepth(
                crate::ast::nodes_view(arena@),
                i,
                defs_view(defs@),
                dd@,
                cap,
            ),
{
    let ghost av = crate::ast::nodes_view(arena@);
    let ghost dv = defs_view(defs@);
    let mut v: Vec<u64> = Vec::new();
    let mut i: usize = 0;
    while i < arena.len()
        invariant
            i <= arena.len(),
            v@.len() == i,
            av == crate::ast::nodes_view(arena@),
            dv == defs_view(defs@),
            forall|q: int| 0 <= q < i ==> v@[q] == ndepth(av, q, dv, dd@, cap),
        decreases arena.len() - i,
    {
        proof {
            assert(av[i as int] == arena@[i as int]@);
        }
        let x: u64 = match &arena[i] {
            Node::Include { target, .. } => {
                let base: u64 = match find_def(defs, target) {
                    Some(j) => if j < dd.len() {
                        dd[j]
                    } else {
                        0
                    },
                    None => 0,
                };
                sat_inc_b(base, cap)
            },
            Node::If { children, .. } => sat_inc_b(
                dmax_children(&v, children, i, Ghost(av), Ghost(dv), Ghost(dd@), cap),
                cap,
            ),
            Node::For { children, .. } => sat_inc_b(
                dmax_children(&v, children, i, Ghost(av), Ghost(dv), Ghost(dd@), cap),
                cap,
            ),
            Node::Define { children, .. } => sat_inc_b(
                dmax_children(&v, children, i, Ghost(av), Ghost(dv), Ghost(dd@), cap),
                cap,
            ),
            _ => 0,
        };
        proof {
            assert(x == ndepth(av, i as int, dv, dd@, cap));
        }
        v.push(x);
        i = i + 1;
    }
    v
}

/// Rounds of body-depth recomputation, one per definition.
fn relax_exec(arena: &Vec<Node>, defs: &Vec<Def>, cap: u64) -> (dd: Vec<u64>)
    ensures
        dd@ == relax(
            crate::ast::nodes_view(arena@),
            defs_view(defs@),
            defs@.len() as nat,
            cap,
        ),
{
    let ghost av = crate::ast::nodes_view(arena@);
    let ghost dv = defs_view(defs@);
    let mut dd: Vec<u64> = Vec::new();
    let mut e: usize = 0;
    while e < defs.len()
        invariant
            e <= defs.len(),
            dd@.len() == e,
            forall|q: int| 0 <= q < e ==> dd@[q] == 0u64,
        decreases defs.len() - e,
    {
        dd.push(0);
        e = e + 1;
    }
    proof {
        assert(dd@ =~= relax(av, dv, 0, cap));
    }
    let mut k: usize = 0;
    while k < defs.len()
        invariant
            k <= defs.len(),
            av == crate::ast::nodes_view(arena@),
            dv == defs_view(defs@),
            dd@ == relax(av, dv, k as nat, cap),
        decreases defs.len() - k,
    {
        let nd = depth_flags(arena, defs, &dd, cap);
        let mut new_dd: Vec<u64> = Vec::new();
        let mut e2: usize = 0;
        while e2 < defs.len()
            invariant
                e2 <= defs.len(),
                av == crate::ast::nodes_view(arena@),
                dv == defs_view(defs@),
                new_dd@.len() == e2,
                nd@.len() == arena@.len(),
                forall|q: int| 0 <= q < arena@.len() ==> nd@[q] == ndepth(av, q, dv, dd@, cap),
                forall|q: int| 0 <= q < e2 ==> new_dd@[q] == body_depth(av, dv, q, dd@, cap),
            decreases defs.len() - e2,
        {
            let r = defs[e2].root;
            let b: u64 = if r < arena.len() {
                proof {
                    assert(av[r as int] == arena@[r as int]@);
                }
                match &arena[r] {
                    Node::If { children, .. } => dmax_children(
                        &nd,
                        children,
                        r,
                        Ghost(av),
                        Ghost(dv),
                        Ghost(dd@),
                        cap,
                    ),
                    Node::For { children, .. } => dmax_children(
                        &nd,
                        children,
                        r,
                        Ghost(av),
                        Ghost(dv),
                        Ghost(dd@),
                        cap,
                    ),
                    Node::Define { children, .. } => dmax_children(
                        &nd,
                        children,
                        r,
                        Ghost(av),
                        Ghost(dv),
                        Ghost(dd@),
                        cap,
                    ),
                    _ => {
                        proof {
                            assert(node_children(av[r as int]).len() == 0);
                            assert(ch_dmax(av, node_children(av[r as int]), r as int, dv, dd@, cap)
                                == 0);
                        }
                        0
                    },
                }
            } else {
                0
            };
            proof {
                assert(b == body_depth(av, dv, e2 as int, dd@, cap));
            }
            new_dd.push(b);
            e2 = e2 + 1;
        }
        proof {
            assert(new_dd@ =~= relax(av, dv, (k + 1) as nat, cap));
        }
        dd = new_dd;
        k = k + 1;
    }
    dd
}

/// The document's combined nesting depth, saturated at `cap`.
fn doc_depth_b(doc: &Document, defs: &Vec<Def>, cap: u64) -> (r: u64)
    requires
        defs_view(defs@) == defs_of(doc@),
    ensures
        r == doc_depth(doc@, cap),
{
    let ghost av = crate::ast::nodes_view(doc.arena@);
    let ghost dv = defs_view(defs@);
    let dd = relax_exec(&doc.arena, defs, cap);
    let nd = depth_flags(&doc.arena, defs, &dd, cap);
    let r = dmax_children(&nd, &doc.roots, doc.arena.len(), Ghost(av), Ghost(dv), Ghost(dd@), cap);
    r
}

/// Validates a document: duplicate definitions, reference resolution,
/// cycle detection, and the nesting-depth guard. Returns the errors and
/// the warnings, in that order of stages.
pub fn validate(doc: &Document, cfg: &Config) -> (r: (Vec<Diagnostic>, Vec<Diagnostic>))
    ensures
        diags_view(r.0@) == validate_spec(doc@, cfg@).errs,
        diags_view(r.1@) == validate_spec(doc@, cfg@).warns,
{
    let ghost av = crate::ast::nodes_view(doc.arena@);
    let defs = collect_defs(doc);
    let ghost dv = defs_view(defs@);
    let mut errs = dup_errs(&defs);
    let (mut rerrs, warns) = ref_scan(doc, &defs, cfg);
    let ghost refs = refs_from(
        av,
        0,
        dv,
        names_view(cfg.known_fragments@),
        cfg.strict_unknown_refs,
    );
    errs.append(&mut rerrs);
    proof {
        assert(diags_view(errs@) =~= dup_from(dv, 0) + refs.errs);
    }
    let adj = build_adj(&doc.arena, &defs);
    let reach = trans_closure(&adj);
    let ghost e2 = diags_view(errs@);
    match find_first_cyclic(&reach) {
        Some(d) => {
            let names = cycle_names(&adj, &reach, &defs, d);
            let dg = Diagnostic {
                stage: Stage::Validate,
                kind: DiagKind::CyclicInclude { cycle: names },
                span: defs[d].span,
            };
            errs.push(dg);
            proof {
                assert(cycle_diags(av, dv) =~= seq![dg@]);
                assert(diags_view(errs@) =~= e2 + cycle_diags(av, dv));
            }
        },
        None => {
            proof {
                assert(cycle_diags(av, dv) =~= Seq::<DiagV>::empty());
                assert(diags_view(errs@) =~= e2 + cycle_diags(av, dv));
            }
        },
    }
    let ghost e3 = diags_view(errs@);
    let limit = cfg.max_nesting_depth;
    let cap: u64 = (limit as u64) + 1;
    let found = doc_depth_b(doc, &defs, cap);
    if found > limit as u64 {
        let dg = Diagnostic {
            stage: Stage::Validate,
            kind: DiagKind::NestingTooDeep { limit, actual: found },
            span: Span { lo: 0, hi: 0 },
        };
        errs.push(dg);
        proof {
            assert(depth_diags(doc@, limit) =~= seq![dg@]);
            assert(diags_view(errs@) =~= e3 + depth_diags(doc@, limit));
        }
    } else {
        proof {
            assert(depth_diags(doc@, limit) =~= Seq::<DiagV>::empty());
            assert(diags_view(errs@) =~= e3 + depth_diags(doc@, limit));
        }
    }
    proof {
        assert(diags_view(errs@) =~= validate_spec(doc@, cfg@).errs);
        assert(diags_view(warns@) =~= validate_spec(doc@, cfg@).warns);
    }
    (errs, warns)
}

/// Law: the depth guard. Whenever a document's combined nesting depth
/// (computed saturating at one past the limit) exceeds the configured
/// limit, validation fails, and its last error is `NestingTooDeep`
/// carrying that limit and the depth found. Since every pass is iterative
/// and bounded by the input, such input is rejected without unbounded
/// recursion.
pub proof fn lemma_depth_guard(d: DocV, c: ConfigV)
    requires
        doc_depth(d, (c.max_nesting_depth + 1) as u64) > c.max_nesting_depth,
    ensures
        validate_spec(d, c).errs.len() > 0,
        validate_spec(d, c).errs.last() == val_diag(
            DiagKindV::NestingTooDeep {
                limit: c.max_nesting_depth,
                actual: doc_depth(d, (c.max_nesting_depth + 1) as u64),
            },
            Span { lo: 0, hi: 0 },
        ),
{
    let de = depth_diags(d, c.max_nesting_depth);
    assert(de.len() == 1);
    let rest = dup_from(defs_of(d), 0) + refs_from(
        d.arena,
        0,
        defs_of(d),
        c.known_fragments,
        c.strict_unknown_refs,
    ).errs + cycle_diags(d.arena, defs_of(d));
    assert(validate_spec(d, c).errs =~= rest + de);
    assert((rest + de).last() == de[0]);
}

} // verus!
