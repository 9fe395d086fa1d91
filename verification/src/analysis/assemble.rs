//! Building the analysis of a syntax tree.

use vstd::prelude::*;
use vstd::string::*;
use vstd::utf8::*;

use super::calls::collect_calls;
use super::interner::StringInterner;
use super::references::{
    collect_references, record_ranges, record_references, Context,
};
use super::rows::{collect_nodes, collect_scopes};
use super::symbols::{collect_symbols, order_candidates};
use super::{
    Analysis, AnalysisError, Language, LossCode, LossRecord, ANALYSIS_PROFILE, ANALYSIS_VERSION,
    JAVASCRIPT_FRONTEND, JAVASCRIPT_FRONTEND_VERSION, PRODUCER, PRODUCER_VERSION,
};
use crate::digest::sha256;
use crate::scope::ScopeAnalyzer;
use crate::syntax::{RowModel, SyntaxTree};
use crate::{digest, scope, syntax, text};

use super::{calls, interner, references, rows, symbols, validate};

verus! {

/// What an analysis is built from.
pub open spec fn context_of(rows: Seq<RowModel>, source: Seq<char>) -> Context {
    let found = scope::analyzed(seq![scope::global_scope()], rows, source);
    Context {
        rows,
        source,
        scopes: found.scopes,
        inner: found.inner,
        candidates: symbols::ordered_candidates(rows, found.scopes),
    }
}

/// The names and versions that an analysis carries.
pub open spec fn metadata_texts() -> Seq<Seq<char>> {
    seq![
        ANALYSIS_PROFILE@,
        PRODUCER@,
        PRODUCER_VERSION@,
        JAVASCRIPT_FRONTEND@,
        JAVASCRIPT_FRONTEND_VERSION@,
    ]
}

/// What an analysis leaves out.
pub open spec fn loss_codes() -> Seq<LossCode> {
    seq![
        LossCode::SourceMapLineageUnavailable,
        LossCode::FingerprintEvidenceUnavailable,
        LossCode::DynamicCallTargetUnavailable,
        LossCode::TdzAndFlowResolutionUnavailable,
        LossCode::DynamicScopeUnavailable,
    ]
}

/// The messages for what an analysis leaves out.
pub open spec fn loss_texts() -> Seq<Seq<char>> {
    seq![
        "source-map lineage is deferred to analysis phase 6"@,
        "legacy matcher fingerprints are not part of analysis v1"@,
        "member and dynamic call targets require a later flow-analysis pass"@,
        "analysis v1 lexical resolution does not model temporal dead zones or assignments"@,
        "with and direct eval can invalidate static lexical resolution"@,
    ]
}

/// The strings once metadata and node kinds have joined.
pub open spec fn table_of_nodes(rows: Seq<RowModel>) -> Seq<Seq<char>> {
    interner::all_joined(
        interner::all_joined(Seq::empty(), metadata_texts()),
        rows::kinds_of(rows),
    )
}

/// The strings once symbol names have joined.
pub open spec fn table_of_symbols(context: Context) -> Seq<Seq<char>> {
    interner::all_joined(
        table_of_nodes(context.rows),
        symbols::names_of(context.candidates, symbols::kept(context.candidates)),
    )
}

/// The strings once reference names have joined.
pub open spec fn table_of_references(context: Context) -> Seq<Seq<char>> {
    interner::all_joined(
        table_of_symbols(context),
        references::pending_names(references::all_pending(context)),
    )
}

/// The strings once call properties have joined.
pub open spec fn table_of_calls(context: Context) -> Seq<Seq<char>> {
    interner::all_joined(
        table_of_references(context),
        calls::properties_of(calls::all_calls(context)),
    )
}

/// The strings of an analysis.
pub open spec fn table_of(context: Context) -> Seq<Seq<char>> {
    interner::all_joined(table_of_calls(context), loss_texts())
}

/// Whether loss rows record what an analysis leaves out.
pub open spec fn losses_are(losses: Seq<LossRecord>, table: Seq<Seq<char>>) -> bool {
    &&& losses.len() == loss_codes().len()
    &&& forall|k: int|
        0 <= k < losses.len() ==> (#[trigger] losses[k]).code == loss_codes()[k]
            && interner::names(table, losses[k].message, loss_texts()[k])
}

/// Whether the tables of an analysis record a syntax tree.
pub open spec fn tables_are(a: Analysis, context: Context) -> bool {
    let table = table_of(context);
    let ordered = references::ordered_references(context);
    &&& text::views(a.strings@) == table
    &&& rows::nodes_are(a.nodes@, context.rows, table)
    &&& rows::scopes_are(a.scopes@, context.scopes)
    &&& symbols::symbols_are(a.symbols@, a.nodes@, table, context.candidates)
    &&& references::ranges_are(a.symbols@, references::all_pending(context))
    &&& references::references_are(a.references@, a.nodes@, table, ordered)
    &&& references::def_uses_are(a.def_uses@, a.references@, a.symbols@, ordered)
    &&& calls::calls_are(
        a.calls@,
        a.nodes@,
        table,
        a.def_uses@,
        a.symbols@,
        calls::ordered_calls(context),
    )
    &&& losses_are(a.losses@, table)
}

/// Whether an analysis is that of a syntax tree over a text.
pub open spec fn is_analysis_of(a: Analysis, rows: Seq<RowModel>, source: Seq<char>) -> bool {
    &&& validate::metadata_is_supported(a)
    &&& a.language == Language::JavaScript
    &&& a.source_digest@ == digest::sha256_of(encode_utf8(source))
    &&& a.source_length == encode_utf8(source).len()
    &&& tables_are(a, context_of(rows, source))
}

/// Whether a table of the analysis would need more rows than a row number
/// counts.
pub open spec fn too_many_rows(rows: Seq<RowModel>, source: Seq<char>) -> bool {
    let context = context_of(rows, source);
    ||| rows.len() > u32::MAX
    ||| context.scopes.len() > u32::MAX
    ||| context.candidates.len() > u32::MAX
    ||| table_of(context).len() > u32::MAX + 1
}

/// Whether a declaration has no node of its own.
pub open spec fn some_node_is_missing(rows: Seq<RowModel>, source: Seq<char>) -> bool {
    symbols::some_binding_lacks_a_node(rows, context_of(rows, source).scopes)
}

/// Whether some analysis of a tree has a fault.
pub open spec fn some_analysis_fails(
    rows: Seq<RowModel>,
    source: Seq<char>,
    error: AnalysisError,
) -> bool {
    exists|a: Analysis| #[trigger]
        is_analysis_of(a, rows, source) && validate::analysis_fault(a) == Some(error)
}

proof fn lemma_tables_grow(context: Context)
    ensures
        interner::extends(table_of(context), table_of_calls(context)),
        interner::extends(table_of(context), table_of_references(context)),
        interner::extends(table_of(context), table_of_symbols(context)),
        interner::extends(table_of(context), table_of_nodes(context.rows)),
{
    let t = table_of(context);
    let c = table_of_calls(context);
    let r = table_of_references(context);
    let s = table_of_symbols(context);
    let n = table_of_nodes(context.rows);
    interner::lemma_joining_extends(c, loss_texts());
    interner::lemma_joining_extends(r, calls::properties_of(calls::all_calls(context)));
    interner::lemma_joining_extends(s, references::pending_names(references::all_pending(context)));
    interner::lemma_joining_extends(
        n,
        symbols::names_of(context.candidates, symbols::kept(context.candidates)),
    );
    interner::lemma_extends_is_transitive(t, c, r);
    interner::lemma_extends_is_transitive(t, r, s);
    interner::lemma_extends_is_transitive(t, s, n);
}

fn intern_metadata(strings: &mut StringInterner)
    requires
        old(strings).is_wf(),
        old(strings).texts() == Seq::<Seq<char>>::empty(),
    ensures
        final(strings).is_wf(),
        final(strings).texts() == interner::all_joined(Seq::empty(), metadata_texts()),
{
    let ghost empty = Seq::<Seq<char>>::empty();
    let ghost all = metadata_texts();
    proof {
        assert(all.take(0) =~= empty);
        assert(all.take(1) =~= all.take(0).push(all[0]));
        assert(all.take(2) =~= all.take(1).push(all[1]));
        assert(all.take(3) =~= all.take(2).push(all[2]));
        assert(all.take(4) =~= all.take(3).push(all[3]));
        assert(all.take(5) =~= all.take(4).push(all[4]));
        assert(all.take(5) =~= all);
        interner::lemma_joined_push(empty, all.take(0), all[0]);
        interner::lemma_joined_push(empty, all.take(1), all[1]);
        interner::lemma_joined_push(empty, all.take(2), all[2]);
        interner::lemma_joined_push(empty, all.take(3), all[3]);
        interner::lemma_joined_push(empty, all.take(4), all[4]);
        assert(interner::all_joined(empty, all.take(0)).len() == 0);
        assert(interner::all_joined(empty, all.take(1)).len() <= 1);
        assert(interner::all_joined(empty, all.take(2)).len() <= 2);
        assert(interner::all_joined(empty, all.take(3)).len() <= 3);
        assert(interner::all_joined(empty, all.take(4)).len() <= 4);
    }
    let first = strings.intern(ANALYSIS_PROFILE);
    assert(strings.texts() == interner::all_joined(empty, all.take(1)));
    let second = strings.intern(PRODUCER);
    assert(strings.texts() == interner::all_joined(empty, all.take(2)));
    let third = strings.intern(PRODUCER_VERSION);
    assert(strings.texts() == interner::all_joined(empty, all.take(3)));
    let fourth = strings.intern(JAVASCRIPT_FRONTEND);
    assert(strings.texts() == interner::all_joined(empty, all.take(4)));
    let fifth = strings.intern(JAVASCRIPT_FRONTEND_VERSION);
}

fn loss_at(k: usize) -> (r: (LossCode, &'static str))
    requires
        k < 5,
    ensures
        r.0 == loss_codes()[k as int],
        r.1@ == loss_texts()[k as int],
{
    if k == 0 {
        (
            LossCode::SourceMapLineageUnavailable,
            "source-map lineage is deferred to analysis phase 6",
        )
    } else if k == 1 {
        (
            LossCode::FingerprintEvidenceUnavailable,
            "legacy matcher fingerprints are not part of analysis v1",
        )
    } else if k == 2 {
        (
            LossCode::DynamicCallTargetUnavailable,
            "member and dynamic call targets require a later flow-analysis pass",
        )
    } else if k == 3 {
        (
            LossCode::TdzAndFlowResolutionUnavailable,
            "analysis v1 lexical resolution does not model temporal dead zones or assignments",
        )
    } else {
        (
            LossCode::DynamicScopeUnavailable,
            "with and direct eval can invalidate static lexical resolution",
        )
    }
}

fn collect_losses(strings: &mut StringInterner) -> (r: Result<Vec<LossRecord>, AnalysisError>)
    requires
        old(strings).is_wf(),
    ensures
        final(strings).is_wf(),
        match r {
            Ok(losses) => final(strings).texts() == interner::all_joined(
                old(strings).texts(),
                loss_texts(),
            ) && losses_are(losses@, final(strings).texts()),
            Err(error) => error == AnalysisError::TooManyRows && interner::all_joined(
                old(strings).texts(),
                loss_texts(),
            ).len() > u32::MAX + 1,
        },
{
    let ghost start = strings.texts();
    let ghost all = loss_texts();
    let mut losses: Vec<LossRecord> = Vec::new();
    let mut k: usize = 0;
    assert(all.take(0) =~= Seq::empty());
    while k < 5
        invariant
            k <= 5,
            start == old(strings).texts(),
            all == loss_texts(),
            strings.is_wf(),
            strings.texts() == interner::all_joined(start, all.take(k as int)),
            losses@.len() == k,
            forall|j: int|
                0 <= j < k ==> (#[trigger] losses@[j]).code == loss_codes()[j] && interner::names(
                    strings.texts(),
                    losses@[j].message,
                    all[j],
                ),
        decreases 5 - k,
    {
        let ghost before = strings.texts();
        let (code, message) = loss_at(k);
        proof {
            assert(all.take(k + 1) =~= all.take(k as int).push(all[k as int]));
            interner::lemma_joined_push(start, all.take(k as int), all[k as int]);
            rows::lemma_joined_lengths(start, all, k + 1);
        }
        let row = match strings.intern(message) {
            Ok(row) => row,
            Err(error) => {
                return Err(error);
            },
        };
        losses.push(LossRecord { code, message: row });
        proof {
            assert(interner::extends(strings.texts(), before)) by {
                assert(strings.texts().take(before.len() as int) =~= before);
            }
            assert forall|j: int| 0 <= j < k implies interner::names(
                strings.texts(),
                (#[trigger] losses@[j]).message,
                all[j],
            ) by {
                interner::lemma_names_stay(strings.texts(), before, losses@[j].message, all[j]);
            }
        }
        k += 1;
    }
    assert(all.take(5) =~= all);
    Ok(losses)
}

proof fn lemma_nodes_stay(
    nodes: Seq<super::AnalysisNode>,
    rows: Seq<RowModel>,
    table: Seq<Seq<char>>,
    earlier: Seq<Seq<char>>,
)
    requires
        rows::nodes_are(nodes, rows, earlier),
        interner::extends(table, earlier),
    ensures
        rows::nodes_are(nodes, rows, table),
{
    assert forall|i: int| 0 <= i < nodes.len() implies rows::node_is(
        #[trigger] nodes[i],
        rows,
        table,
        i,
    ) by {
        interner::lemma_names_stay(table, earlier, nodes[i].kind, rows[i].kind);
    }
}

proof fn lemma_symbols_stay(
    ranged: Seq<super::AnalysisSymbol>,
    symbols: Seq<super::AnalysisSymbol>,
    nodes: Seq<super::AnalysisNode>,
    table: Seq<Seq<char>>,
    earlier: Seq<Seq<char>>,
    candidates: Seq<symbols::CandidateModel>,
)
    requires
        symbols::symbols_are(symbols, nodes, earlier, candidates),
        interner::extends(table, earlier),
        ranged.len() == symbols.len(),
        forall|j: int|
            0 <= j < ranged.len() ==> references::same_apart_from_range(
                #[trigger] ranged[j],
                symbols[j],
            ),
    ensures
        symbols::symbols_are(ranged, nodes, table, candidates),
{
    let chosen = symbols::kept(candidates);
    assert forall|j: int| 0 <= j < ranged.len() implies symbols::symbol_is(
        #[trigger] ranged[j],
        nodes,
        table,
        candidates,
        chosen[j],
    ) by {
        assert(symbols::symbol_is(symbols[j], nodes, earlier, candidates, chosen[j]));
        interner::lemma_names_stay(
            table,
            earlier,
            symbols[j].name,
            candidates[chosen[j]].name,
        );
    }
}

proof fn lemma_references_stay(
    table_rows: Seq<super::AnalysisReference>,
    nodes: Seq<super::AnalysisNode>,
    table: Seq<Seq<char>>,
    earlier: Seq<Seq<char>>,
    ordered: Seq<references::PendingModel>,
)
    requires
        references::references_are(table_rows, nodes, earlier, ordered),
        interner::extends(table, earlier),
    ensures
        references::references_are(table_rows, nodes, table, ordered),
{
    assert forall|r: int| 0 <= r < table_rows.len() implies references::reference_is(
        #[trigger] table_rows[r],
        nodes,
        table,
        ordered[r],
    ) by {
        interner::lemma_names_stay(table, earlier, table_rows[r].name, ordered[r].name);
    }
}

proof fn lemma_def_uses_stay(
    table_rows: Seq<super::AnalysisDefUse>,
    references: Seq<super::AnalysisReference>,
    ranged: Seq<super::AnalysisSymbol>,
    symbols: Seq<super::AnalysisSymbol>,
    ordered: Seq<references::PendingModel>,
)
    requires
        references::def_uses_are(table_rows, references, symbols, ordered),
        references::resolved_rows_exist(ordered, symbols.len() as int),
        ranged.len() == symbols.len(),
        forall|j: int|
            0 <= j < ranged.len() ==> references::same_apart_from_range(
                #[trigger] ranged[j],
                symbols[j],
            ),
    ensures
        references::def_uses_are(table_rows, references, ranged, ordered),
{
    assert forall|r: int| 0 <= r < table_rows.len() implies references::def_use_is(
        #[trigger] table_rows[r],
        references,
        ranged,
        ordered,
        r,
    ) by {
        assert(references::def_use_is(table_rows[r], references, symbols, ordered, r));
        assert(references::row_exists(ordered[r], symbols.len() as int));
        if let Some(target) = ordered[r].target {
            assert(references::same_apart_from_range(ranged[target], symbols[target]));
        }
    }
}

proof fn lemma_calls_stay(
    table_rows: Seq<super::AnalysisCall>,
    nodes: Seq<super::AnalysisNode>,
    table: Seq<Seq<char>>,
    earlier: Seq<Seq<char>>,
    def_uses: Seq<super::AnalysisDefUse>,
    symbols: Seq<super::AnalysisSymbol>,
    ordered: Seq<calls::CallModel>,
)
    requires
        calls::calls_are(table_rows, nodes, earlier, def_uses, symbols, ordered),
        interner::extends(table, earlier),
    ensures
        calls::calls_are(table_rows, nodes, table, def_uses, symbols, ordered),
{
    assert forall|k: int| 0 <= k < table_rows.len() implies calls::call_is(
        #[trigger] table_rows[k],
        nodes,
        table,
        def_uses,
        symbols,
        ordered[k],
    ) by {
        calls::lemma_property_stays(
            table_rows[k].property,
            table,
            earlier,
            ordered[k].property,
        );
    }
}

/// Every kept candidate is a candidate, so symbols are at most as many.
proof fn lemma_kept_length(candidates: Seq<symbols::CandidateModel>, count: int)
    requires
        0 <= count,
    ensures
        symbols::kept_upto(candidates, count).len() <= count,
    decreases count,
{
    if count > 0 {
        lemma_kept_length(candidates, count - 1);
    }
}

impl Analysis {
    /// Builds the analysis of a syntax tree over its text.
    #[verifier::rlimit(50)]
    pub fn from_javascript(source: &str, tree: &SyntaxTree) -> (r: Result<Analysis, AnalysisError>)
        requires
            syntax::covers(tree@, source@),
        ensures
            match r {
                Ok(a) => {
                    &&& is_analysis_of(a, tree@, source@)
                    &&& validate::is_valid(a)
                    &&& !too_many_rows(tree@, source@)
                    &&& !some_node_is_missing(tree@, source@)
                },
                Err(error) => {
                    ||| error == AnalysisError::TooManyRows && too_many_rows(tree@, source@)
                    ||| error == AnalysisError::MissingNode && some_node_is_missing(
                        tree@,
                        source@,
                    )
                    ||| some_analysis_fails(tree@, source@, error)
                },
            },
    {
        let ghost context = context_of(tree@, source@);
        let ghost table = table_of(context);
        proof {
            lemma_tables_grow(context);
        }
        let bytes = source.as_bytes();
        if tree.len() > u32::MAX as usize {
            return Err(AnalysisError::TooManyRows);
        }
        let mut strings = StringInterner::new();
        intern_metadata(&mut strings);
        let nodes = match collect_nodes(tree, &mut strings) {
            Ok(nodes) => nodes,
            Err(error) => {
                return Err(error);
            },
        };
        let mut analyzer = ScopeAnalyzer::new();
        analyzer.analyze(tree, source);
        let found = analyzer.get_scopes();
        assert(scope::scope_views(found@).len() == found@.len());
        if found.len() > u32::MAX as usize {
            return Err(AnalysisError::TooManyRows);
        }
        let (scopes, places) = collect_scopes(found);
        let candidates = match order_candidates(tree, found, &places) {
            Ok(candidates) => candidates,
            Err(error) => {
                return Err(error);
            },
        };
        assert(symbols::candidate_views(candidates@).len() == candidates@.len());
        if candidates.len() > u32::MAX as usize {
            return Err(AnalysisError::TooManyRows);
        }
        let (symbols, sources) = match collect_symbols(&candidates, &nodes, &mut strings) {
            Ok(found) => found,
            Err(error) => {
                return Err(error);
            },
        };
        proof {
            lemma_kept_length(context.candidates, context.candidates.len() as int);
            assert(syntax::index_views(sources@).len() == sources@.len());
        }
        let pending = match collect_references(
            tree,
            source,
            &analyzer,
            &places,
            &candidates,
            &sources,
            &mut strings,
            Ghost(context),
        ) {
            Ok(pending) => pending,
            Err(error) => {
                return Err(error);
            },
        };
        let ghost named = strings.texts();
        let (references, def_uses) = record_references(
            tree,
            &nodes,
            &symbols,
            &pending,
            Ghost(named),
            Ghost(context),
        );
        let ghost unranged = symbols@;
        let ranged = record_ranges(
            symbols,
            &pending,
            Ghost(named),
            Ghost(references::all_pending(context)),
        );
        proof {
            lemma_def_uses_stay(
                def_uses@,
                references@,
                ranged@,
                unranged,
                references::ordered_references(context),
            );
            assert forall|k: int| 0 <= k < references@.len() implies (#[trigger] references@[k]).node
                == references::ordered_references(context)[k].node && references@[k].node
                < tree@.len() by {
                assert(references::reference_is(
                    references@[k],
                    nodes@,
                    named,
                    references::ordered_references(context)[k],
                ));
            }
        }
        let calls = match collect_calls(
            tree,
            source,
            &nodes,
            &ranged,
            &references,
            &def_uses,
            &mut strings,
            Ghost(context),
        ) {
            Ok(calls) => calls,
            Err(error) => {
                return Err(error);
            },
        };
        let losses = match collect_losses(&mut strings) {
            Ok(losses) => losses,
            Err(error) => {
                return Err(error);
            },
        };
        proof {
            strings.lemma_row_bound();
        }
        let source_digest = sha256(bytes);
        let source_length: u64 = bytes.len() as u64;
        let strings = strings.into_values();
        let analysis = Analysis {
            version: ANALYSIS_VERSION,
            profile: ANALYSIS_PROFILE.to_string(),
            producer: PRODUCER.to_string(),
            producer_version: PRODUCER_VERSION.to_string(),
            language: Language::JavaScript,
            frontend: JAVASCRIPT_FRONTEND.to_string(),
            frontend_version: JAVASCRIPT_FRONTEND_VERSION.to_string(),
            source_digest,
            source_length,
            strings,
            nodes,
            scopes,
            symbols: ranged,
            references,
            def_uses,
            calls,
            losses,
        };
        proof {
            lemma_nodes_stay(analysis.nodes@, tree@, table, table_of_nodes(tree@));
            lemma_symbols_stay(
                analysis.symbols@,
                unranged,
                analysis.nodes@,
                table,
                table_of_symbols(context),
                context.candidates,
            );
            lemma_references_stay(
                analysis.references@,
                analysis.nodes@,
                table,
                named,
                references::ordered_references(context),
            );
            lemma_calls_stay(
                analysis.calls@,
                analysis.nodes@,
                table,
                table_of_calls(context),
                analysis.def_uses@,
                analysis.symbols@,
                calls::ordered_calls(context),
            );
            assert(is_analysis_of(analysis, tree@, source@));
        }
        match analysis.validate() {
            Ok(()) => Ok(analysis),
            Err(error) => Err(error),
        }
    }
}

} // verus!
