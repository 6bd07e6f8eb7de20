//! What the expansion of a config file comes to.
//!
//! `merge_source` says it for a file system whose answers do not change: the
//! fragments of a source in array order, each with its own fragments underneath
//! it, and the source on top. The laws say that a run, step by step, comes to
//! just that, that it always ends, and what the merged table holds.

use vstd::prelude::*;

use crate::config_layers;
use crate::config_layers::{FileView, IncludeErrorView, LayerView, MissingView, RunView};
use crate::toml_tree;
use crate::toml_tree::Toml;

verus! {

/// A file system: where a path leads from a directory, and what a file holds.
pub struct FileTree {
    pub resolve: spec_fn(u64, Seq<char>) -> Result<FileView, MissingView>,
    pub read: spec_fn(u64) -> Result<Seq<char>, Seq<char>>,
}

/// How many handles there are, and so how long a chain can get.
pub open spec fn handle_count() -> nat {
    0x1_0000_0000_0000_0000
}

/// No file stands on the chain twice.
pub open spec fn distinct(chain: Seq<FileView>) -> bool {
    forall|i: int, j: int|
        0 <= i < j < chain.len() ==> (#[trigger] chain[i]).handle != (#[trigger] chain[j]).handle
}

/// The file that an entry leads to and the layer that it makes, or the error.
pub open spec fn opened(files: FileTree, entry: Seq<char>, dir: u64, chain: Seq<FileView>) -> Result<
    (FileView, LayerView),
    IncludeErrorView,
> {
    match config_layers::resolved_file(entry, chain, (files.resolve)(dir, entry)) {
        Err(e) => Err(e),
        Ok(file) => match config_layers::read_layer(file, dir, chain, (files.read)(file.handle)) {
            Err(e) => Err(e),
            Ok(layer) => Ok((file, layer)),
        },
    }
}

/// `out` with the fragments at `pending` merged onto it, in order.
pub open spec fn merge_pending(
    files: FileTree,
    out: Map<Seq<char>, Toml>,
    pending: Seq<Seq<char>>,
    dir: u64,
    chain: Seq<FileView>,
) -> Result<Map<Seq<char>, Toml>, IncludeErrorView>
    decreases handle_count() - chain.len(), pending.len(),
{
    if pending.len() == 0 {
        Ok(out)
    } else {
        match opened(files, pending[0], dir, chain) {
            Err(e) => Err(e),
            Ok((file, layer)) => if chain.len() >= handle_count() {
                arbitrary()
            } else {
                match merge_pending(files, out, layer.pending, layer.dir, chain.push(file)) {
                    Err(e) => Err(e),
                    Ok(below) => merge_pending(
                        files,
                        toml_tree::merged_tables(below, layer.table),
                        pending.skip(1),
                        dir,
                        chain,
                    ),
                }
            },
        }
    }
}

/// `out` with a layer merged onto it: its fragments first, then its own keys.
pub open spec fn merge_layer(
    files: FileTree,
    out: Map<Seq<char>, Toml>,
    layer: LayerView,
    chain: Seq<FileView>,
) -> Result<Map<Seq<char>, Toml>, IncludeErrorView> {
    match merge_pending(files, out, layer.pending, layer.dir, chain) {
        Err(e) => Err(e),
        Ok(below) => Ok(toml_tree::merged_tables(below, layer.table)),
    }
}

/// `out` with a parsed source merged onto it. The source is the last of the
/// chain.
pub open spec fn merge_source(
    files: FileTree,
    out: Map<Seq<char>, Toml>,
    table: Map<Seq<char>, Toml>,
    dir: u64,
    chain: Seq<FileView>,
) -> Result<Map<Seq<char>, Toml>, IncludeErrorView> {
    match config_layers::layer_of(table, dir, chain) {
        Err(e) => Err(e),
        Ok(layer) => merge_layer(files, out, layer, chain),
    }
}

/// A chain without repetitions is shorter than there are handles as long as
/// some handle is not on it.
proof fn lemma_chain_is_short(chain: Seq<FileView>, file: FileView)
    requires
        distinct(chain),
        !config_layers::on_chain(chain, file.handle),
    ensures
        chain.len() < handle_count(),
{
    let all = chain.push(file);
    let handles: Seq<int> = Seq::new(all.len(), |i: int| all[i].handle as int);
    assert(handles.no_duplicates()) by {
        assert forall|i: int, j: int|
            0 <= i < handles.len() && 0 <= j < handles.len() && i != j implies handles[i]
            != handles[j] by {
            if i < chain.len() && j < chain.len() {
                assert(chain[i].handle != chain[j].handle);
            } else if i < chain.len() {
                assert(chain[i].handle != file.handle);
            } else if j < chain.len() {
                assert(chain[j].handle != file.handle);
            }
        }
    }
    handles.unique_seq_to_set();
    let range = vstd::set_lib::set_int_range(0, handle_count() as int);
    vstd::set_lib::lemma_int_range(0, handle_count() as int);
    assert(handles.to_set().subset_of(range));
    vstd::set_lib::lemma_len_subset(handles.to_set(), range);
}

// ---------------------------------------------------------------------------
// A run comes to what the sources merge to
// ---------------------------------------------------------------------------
/// What a run comes to.
pub open spec fn run_outcome(files: FileTree, run: RunView) -> Result<
    Map<Seq<char>, Toml>,
    IncludeErrorView,
>
    decreases run.layers.len(),
{
    if run.layers.len() == 0 {
        Ok(run.out)
    } else {
        match merge_layer(files, run.out, run.layers.last(), run.chain) {
            Err(e) => Err(e),
            Ok(out) => run_outcome(
                files,
                RunView {
                    path: run.path,
                    out,
                    layers: run.layers.drop_last(),
                    chain: run.chain.drop_last(),
                },
            ),
        }
    }
}

/// A run that has just started comes to what its root file merges to, on top of
/// nothing.
pub proof fn law_run_starts_with_the_root(
    files: FileTree,
    path: Seq<char>,
    table: Map<Seq<char>, Toml>,
    root: FileView,
    here: u64,
)
    ensures
        match config_layers::started(path, table, root, here) {
            Ok(run) => run.wf() && run_outcome(files, run) == merge_source(
                files,
                toml_tree::no_entries(),
                table,
                match root.parent {
                    Some(own) => own,
                    None => here,
                },
                seq![root],
            ),
            Err(e) => merge_source(
                files,
                toml_tree::no_entries(),
                table,
                match root.parent {
                    Some(own) => own,
                    None => here,
                },
                seq![root],
            ) == Err::<Map<Seq<char>, Toml>, _>(e),
        },
{
    if let Ok(run) = config_layers::started(path, table, root, here) {
        reveal_with_fuel(run_outcome, 2);
        assert(run.layers.last() == run.layers[0]);
    }
}

/// Merging the sources that have no more fragments to come changes nothing of
/// what a run comes to, nor the path that it is shown under. What is left is finished, or has a path to resolve.
pub proof fn law_settling_keeps_the_outcome(files: FileTree, run: RunView)
    requires
        run.wf(),
    ensures
        run_outcome(files, config_layers::settled(run)) == run_outcome(files, run),
        config_layers::settled(run).wf(),
        config_layers::settled(run).path == run.path,
        config_layers::settled(run).layers.len() > 0 ==> config_layers::settled(
            run,
        ).layers.last().pending.len() > 0,
    decreases run.layers.len(),
{
    if run.layers.len() > 0 && run.layers.last().pending.len() == 0 {
        let next = RunView {
            path: run.path,
            out: toml_tree::merged_tables(run.out, run.layers.last().table),
            layers: run.layers.drop_last(),
            chain: run.chain.drop_last(),
        };
        law_settling_keeps_the_outcome(files, next);
    }
}

/// Opening the next fragment changes nothing of what a run comes to. Where it
/// cannot be opened, the run comes to that error.
pub proof fn law_opening_keeps_the_outcome(files: FileTree, run: RunView)
    requires
        run.wf(),
        run.layers.len() > 0,
        run.layers.last().pending.len() > 0,
    ensures
        match opened(
            files,
            run.layers.last().pending[0],
            run.layers.last().dir,
            run.chain,
        ) {
            Ok((file, layer)) => {
                let next = config_layers::layer_added(config_layers::entry_taken(run), file, layer);
                next.wf() && run_outcome(files, next) == run_outcome(files, run)
            },
            Err(e) => run_outcome(files, run) == Err::<Map<Seq<char>, Toml>, _>(e),
        },
{
    let top = run.layers.last();
    if let Ok((file, layer)) = opened(files, top.pending[0], top.dir, run.chain) {
        lemma_chain_is_short(run.chain, file);
        let taken = config_layers::entry_taken(run);
        let next = config_layers::layer_added(taken, file, layer);
        assert forall|i: int| 0 <= i < run.chain.len() implies (#[trigger] run.chain[i]).handle
            != file.handle by {}
        assert(next.layers.drop_last() =~= taken.layers);
        assert(next.chain.drop_last() =~= run.chain);
        assert(taken.layers.drop_last() =~= run.layers.drop_last());
        reveal_with_fuel(run_outcome, 3);
        if let Ok(below) = merge_layer(files, run.out, layer, next.chain) {
            assert(merge_pending(files, run.out, top.pending, top.dir, run.chain) == merge_pending(
                files,
                below,
                top.pending.skip(1),
                top.dir,
                run.chain,
            ));
        }
    }
}

// ---------------------------------------------------------------------------
// A run ends
// ---------------------------------------------------------------------------
/// How many fragments are opened for the paths at `pending`.
pub open spec fn pending_count(
    files: FileTree,
    pending: Seq<Seq<char>>,
    dir: u64,
    chain: Seq<FileView>,
) -> nat
    decreases handle_count() - chain.len(), pending.len(),
{
    if pending.len() == 0 {
        0
    } else {
        match opened(files, pending[0], dir, chain) {
            Err(_) => 1,
            Ok((file, layer)) => if chain.len() >= handle_count() {
                1
            } else {
                1 + pending_count(files, layer.pending, layer.dir, chain.push(file))
                    + pending_count(files, pending.skip(1), dir, chain)
            },
        }
    }
}

/// How many fragments a run opens at most.
pub open spec fn run_count(files: FileTree, run: RunView) -> nat
    decreases run.layers.len(),
{
    if run.layers.len() == 0 {
        0
    } else {
        pending_count(files, run.layers.last().pending, run.layers.last().dir, run.chain)
            + run_count(
            files,
            RunView {
                path: run.path,
                out: run.out,
                layers: run.layers.drop_last(),
                chain: run.chain.drop_last(),
            },
        )
    }
}

/// What a run comes to within `fuel` steps, each of which settles the run and
/// opens the next fragment; `None` where it has not ended by then.
pub open spec fn driven(files: FileTree, run: RunView, fuel: nat) -> Option<
    Result<Map<Seq<char>, Toml>, IncludeErrorView>,
>
    decreases fuel,
{
    let now = config_layers::settled(run);
    if now.layers.len() == 0 {
        Some(Ok(now.out))
    } else if fuel == 0 {
        None
    } else {
        match opened(files, now.layers.last().pending[0], now.layers.last().dir, now.chain) {
            Err(e) => Some(Err(e)),
            Ok((file, layer)) => driven(
                files,
                config_layers::layer_added(config_layers::entry_taken(now), file, layer),
                (fuel - 1) as nat,
            ),
        }
    }
}

/// The count is the same whatever has been merged so far.
proof fn lemma_count_ignores_out(files: FileTree, run: RunView, other: RunView)
    requires
        run.layers == other.layers,
        run.chain == other.chain,
    ensures
        run_count(files, run) == run_count(files, other),
    decreases run.layers.len(),
{
    if run.layers.len() > 0 {
        lemma_count_ignores_out(
            files,
            RunView {
                path: run.path,
                out: run.out,
                layers: run.layers.drop_last(),
                chain: run.chain.drop_last(),
            },
            RunView {
                path: other.path,
                out: other.out,
                layers: other.layers.drop_last(),
                chain: other.chain.drop_last(),
            },
        );
    }
}

proof fn lemma_settling_keeps_the_count(files: FileTree, run: RunView)
    ensures
        run_count(files, config_layers::settled(run)) == run_count(files, run),
    decreases run.layers.len(),
{
    if run.layers.len() > 0 && run.layers.last().pending.len() == 0 {
        let next = RunView {
            path: run.path,
            out: toml_tree::merged_tables(run.out, run.layers.last().table),
            layers: run.layers.drop_last(),
            chain: run.chain.drop_last(),
        };
        lemma_settling_keeps_the_count(files, next);
        lemma_count_ignores_out(
            files,
            next,
            RunView {
                path: run.path,
                out: run.out,
                layers: run.layers.drop_last(),
                chain: run.chain.drop_last(),
            },
        );
    }
}

/// Whatever the files hold, a run ends, and it ends with what its sources merge
/// to. A chain of fragments without end is cut short by the error for a cycle.
pub proof fn law_run_ends(files: FileTree, run: RunView, fuel: nat)
    requires
        run.wf(),
        fuel >= run_count(files, run),
    ensures
        driven(files, run, fuel) == Some(run_outcome(files, run)),
    decreases fuel,
{
    let now = config_layers::settled(run);
    law_settling_keeps_the_outcome(files, run);
    lemma_settling_keeps_the_count(files, run);
    if now.layers.len() > 0 {
        law_opening_keeps_the_outcome(files, now);
        let top = now.layers.last();
        if let Ok((file, layer)) = opened(files, top.pending[0], top.dir, now.chain) {
            lemma_chain_is_short(now.chain, file);
            let taken = config_layers::entry_taken(now);
            let next = config_layers::layer_added(taken, file, layer);
            assert(next.layers.drop_last() =~= taken.layers);
            assert(next.chain.drop_last() =~= now.chain);
            assert(taken.layers.drop_last() =~= now.layers.drop_last());
            reveal_with_fuel(run_count, 3);
            assert(run_count(files, now) == 1 + run_count(files, next));
            law_run_ends(files, next, (fuel - 1) as nat);
        }
    }
}

// ---------------------------------------------------------------------------
// What the merged table holds
// ---------------------------------------------------------------------------
/// Fragments are merged in array order: those of a list come to the same as
/// those of its first part and then, on top, those of the rest.
pub proof fn law_fragments_in_order(
    files: FileTree,
    out: Map<Seq<char>, Toml>,
    first: Seq<Seq<char>>,
    rest: Seq<Seq<char>>,
    dir: u64,
    chain: Seq<FileView>,
)
    requires
        distinct(chain),
    ensures
        merge_pending(files, out, first + rest, dir, chain) == (match merge_pending(
            files,
            out,
            first,
            dir,
            chain,
        ) {
            Err(e) => Err(e),
            Ok(below) => merge_pending(files, below, rest, dir, chain),
        }),
    decreases first.len(),
{
    if first.len() == 0 {
        assert(first + rest =~= rest);
    } else {
        assert((first + rest)[0] == first[0]);
        assert((first + rest).skip(1) =~= first.skip(1) + rest);
        if let Ok((file, layer)) = opened(files, first[0], dir, chain) {
            lemma_chain_is_short(chain, file);
            if let Ok(below) = merge_pending(
                files,
                out,
                layer.pending,
                layer.dir,
                chain.push(file),
            ) {
                law_fragments_in_order(
                    files,
                    toml_tree::merged_tables(below, layer.table),
                    first.skip(1),
                    rest,
                    dir,
                    chain,
                );
            }
        }
    }
}

/// A list of one fragment comes to the fragment on top of what was there, with
/// the fragment's own fragments underneath it.
pub proof fn law_fragment_on_top(
    files: FileTree,
    out: Map<Seq<char>, Toml>,
    entry: Seq<char>,
    dir: u64,
    chain: Seq<FileView>,
)
    requires
        distinct(chain),
    ensures
        merge_pending(files, out, seq![entry], dir, chain) == (match opened(
            files,
            entry,
            dir,
            chain,
        ) {
            Err(e) => Err(e),
            Ok((file, layer)) => merge_layer(files, out, layer, chain.push(file)),
        }),
{
    if let Ok((file, layer)) = opened(files, entry, dir, chain) {
        lemma_chain_is_short(chain, file);
        assert(seq![entry].skip(1) =~= Seq::empty());
        reveal_with_fuel(merge_pending, 2);
    }
}

/// A later fragment wins over the earlier ones: a scalar or an array of the last
/// of a list is in what the list comes to.
pub proof fn law_later_fragment_wins(
    files: FileTree,
    out: Map<Seq<char>, Toml>,
    first: Seq<Seq<char>>,
    last: Seq<char>,
    dir: u64,
    chain: Seq<FileView>,
    path: Seq<Seq<char>>,
)
    requires
        distinct(chain),
        opened(files, last, dir, chain) matches Ok((_, layer)) && toml_tree::value_at(
            Toml::Table(layer.table),
            path,
        ) matches Some(value) && !(value is Table),
    ensures
        merge_pending(files, out, first + seq![last], dir, chain) matches Ok(merged)
            ==> toml_tree::value_at(Toml::Table(merged), path) == toml_tree::value_at(
            Toml::Table(opened(files, last, dir, chain)->Ok_0.1.table),
            path,
        ),
{
    law_fragments_in_order(files, out, first, seq![last], dir, chain);
    if let Ok(below) = merge_pending(files, out, first, dir, chain) {
        law_fragment_on_top(files, below, last, dir, chain);
        if let Ok((file, layer)) = opened(files, last, dir, chain) {
            if let Ok(under) = merge_pending(
                files,
                below,
                layer.pending,
                layer.dir,
                chain.push(file),
            ) {
                toml_tree::law_overlay_wins(Toml::Table(under), Toml::Table(layer.table), path);
            }
        }
    }
}

/// Whether the list of a source is in order: it is left out, or is an array of
/// strings.
pub open spec fn list_in_order(table: Map<Seq<char>, Toml>) -> bool {
    table.dom().contains(config_layers::INCLUDE_KEY@) ==> (
    table[config_layers::INCLUDE_KEY@] matches Toml::Array(items) && config_layers::all_texts(
        items,
    ))
}

/// Whether an entry is in order: it leads to a file that is not being expanded,
/// that can be read, that is TOML, and whose own list is in order.
pub open spec fn entry_in_order(
    files: FileTree,
    entry: Seq<char>,
    dir: u64,
    chain: Seq<FileView>,
) -> bool {
    &&& (files.resolve)(dir, entry) matches Ok(file)
    &&& !config_layers::on_chain(chain, file.handle)
    &&& (files.read)(file.handle) matches Ok(text)
    &&& toml_tree::toml_document(text) matches Ok(table)
    &&& list_in_order(table)
}

/// Whether every fragment reached from `pending` is in order: each entry, and,
/// one level down, each entry of the file that it leads to.
pub open spec fn all_open(
    files: FileTree,
    pending: Seq<Seq<char>>,
    dir: u64,
    chain: Seq<FileView>,
) -> bool
    decreases handle_count() - chain.len(),
{
    forall|i: int|
        0 <= i < pending.len() ==> {
            let entry = #[trigger] pending[i];
            &&& entry_in_order(files, entry, dir, chain)
            &&& opened(files, entry, dir, chain) matches Ok((file, layer)) && chain.len()
                < handle_count() && all_open(files, layer.pending, layer.dir, chain.push(file))
        }
}

/// A fragment can be opened exactly if its entry is in order.
pub proof fn law_opens_exactly_in_order(
    files: FileTree,
    entry: Seq<char>,
    dir: u64,
    chain: Seq<FileView>,
)
    ensures
        opened(files, entry, dir, chain) is Ok <==> entry_in_order(files, entry, dir, chain),
{
}

/// The fragments of a list merge exactly if every fragment reached from it is in
/// order. Otherwise the list comes to an error, never to a part of them.
pub proof fn law_list_merges_exactly_in_order(
    files: FileTree,
    out: Map<Seq<char>, Toml>,
    pending: Seq<Seq<char>>,
    dir: u64,
    chain: Seq<FileView>,
)
    requires
        distinct(chain),
    ensures
        merge_pending(files, out, pending, dir, chain) is Ok <==> all_open(
            files,
            pending,
            dir,
            chain,
        ),
    decreases handle_count() - chain.len(), pending.len(),
{
    if pending.len() > 0 {
        let rest = pending.skip(1);
        law_opens_exactly_in_order(files, pending[0], dir, chain);
        if let Ok((file, layer)) = opened(files, pending[0], dir, chain) {
            lemma_chain_is_short(chain, file);
            assert forall|i: int| 0 <= i < chain.len() implies (#[trigger] chain[i]).handle
                != file.handle by {}
            law_list_merges_exactly_in_order(
                files,
                out,
                layer.pending,
                layer.dir,
                chain.push(file),
            );
            if let Ok(below) = merge_pending(
                files,
                out,
                layer.pending,
                layer.dir,
                chain.push(file),
            ) {
                let next = toml_tree::merged_tables(below, layer.table);
                law_list_merges_exactly_in_order(files, next, rest, dir, chain);
                assert(all_open(files, pending, dir, chain) == all_open(files, rest, dir, chain))
                    by {
                    assert forall|i: int| 0 <= i < rest.len() implies #[trigger] rest[i]
                        == pending[i + 1] by {}
                    assert forall|i: int| 0 < i < pending.len() implies #[trigger] pending[i]
                        == rest[i - 1] by {}
                }
            }
        }
    }
}

/// Expansion fails closed: a source merges exactly if its list is in order and
/// so is every fragment reached from it. Otherwise it comes to an error, never
/// to a part of what it should.
pub proof fn law_fails_closed(
    files: FileTree,
    out: Map<Seq<char>, Toml>,
    table: Map<Seq<char>, Toml>,
    dir: u64,
    chain: Seq<FileView>,
)
    requires
        distinct(chain),
    ensures
        merge_source(files, out, table, dir, chain) is Ok <==> {
            &&& list_in_order(table)
            &&& config_layers::includes_of(table, chain) matches Ok(pending) && all_open(
                files,
                pending,
                dir,
                chain,
            )
        },
{
    if let Ok(pending) = config_layers::includes_of(table, chain) {
        law_list_merges_exactly_in_order(files, out, pending, dir, chain);
    }
}

/// The text that the expansion of a root file comes to: what its sources merge
/// to, written as TOML.
pub open spec fn expanded_text(
    files: FileTree,
    path: Seq<char>,
    table: Map<Seq<char>, Toml>,
    root: FileView,
    here: u64,
) -> Result<Seq<char>, IncludeErrorView> {
    match merge_source(
        files,
        toml_tree::no_entries(),
        table,
        match root.parent {
            Some(own) => own,
            None => here,
        },
        seq![root],
    ) {
        Err(e) => Err(e),
        Ok(merged) => config_layers::written(path, toml_tree::toml_text(merged)),
    }
}

/// A run of the root file ends with the expanded text.
pub proof fn law_run_gives_the_expanded_text(
    files: FileTree,
    path: Seq<char>,
    table: Map<Seq<char>, Toml>,
    root: FileView,
    here: u64,
    fuel: nat,
)
    requires
        config_layers::started(path, table, root, here) matches Ok(run) ==> fuel >= run_count(
            files,
            run,
        ),
    ensures
        match config_layers::started(path, table, root, here) {
            Err(e) => expanded_text(files, path, table, root, here) == Err::<Seq<char>, _>(e),
            Ok(run) => {
                &&& run.path == path
                &&& driven(files, run, fuel) matches Some(end)
                &&& expanded_text(files, path, table, root, here) == (match end {
                    Err(e) => Err(e),
                    Ok(out) => config_layers::written(path, toml_tree::toml_text(out)),
                })
            },
        },
{
    law_run_starts_with_the_root(files, path, table, root, here);
    if let Ok(run) = config_layers::started(path, table, root, here) {
        law_run_ends(files, run, fuel);
    }
}

/// Expansion succeeds exactly if the root's list and every fragment reached from
/// it are in order and the merged table, which lacks the key, can be written.
pub proof fn law_expansion_succeeds_exactly(
    files: FileTree,
    path: Seq<char>,
    table: Map<Seq<char>, Toml>,
    root: FileView,
    here: u64,
)
    ensures
        ({
            let dir = match root.parent {
                Some(own) => own,
                None => here,
            };
            let merged = merge_source(files, toml_tree::no_entries(), table, dir, seq![root]);
            &&& expanded_text(files, path, table, root, here) is Ok <==> {
                &&& list_in_order(table)
                &&& config_layers::includes_of(table, seq![root]) matches Ok(pending) && all_open(
                    files,
                    pending,
                    dir,
                    seq![root],
                )
                &&& toml_tree::toml_text(merged->Ok_0) is Ok
            }
            &&& merged matches Ok(out) ==> !out.dom().contains(config_layers::INCLUDE_KEY@)
        }),
{
    let dir = match root.parent {
        Some(own) => own,
        None => here,
    };
    law_fails_closed(files, toml_tree::no_entries(), table, dir, seq![root]);
    law_key_is_stripped(files, toml_tree::no_entries(), table, dir, seq![root]);
}

/// A fragment that leads back to a file that is being expanded is an error,
/// whatever the file holds. A file that is not being expanded is not: two
/// fragments may pull in the same third one.
pub proof fn law_cycle_is_an_error(
    files: FileTree,
    entry: Seq<char>,
    dir: u64,
    chain: Seq<FileView>,
)
    requires
        (files.resolve)(dir, entry) is Ok,
    ensures
        config_layers::on_chain(chain, (files.resolve)(dir, entry)->Ok_0.handle) <==> opened(
            files,
            entry,
            dir,
            chain,
        ) matches Err(IncludeErrorView::Cycle { .. }),
{
}

proof fn lemma_pending_strips_the_key(
    files: FileTree,
    out: Map<Seq<char>, Toml>,
    pending: Seq<Seq<char>>,
    dir: u64,
    chain: Seq<FileView>,
)
    requires
        distinct(chain),
        !out.dom().contains(config_layers::INCLUDE_KEY@),
    ensures
        merge_pending(files, out, pending, dir, chain) matches Ok(merged)
            ==> !merged.dom().contains(config_layers::INCLUDE_KEY@),
    decreases handle_count() - chain.len(), pending.len(),
{
    if pending.len() > 0 {
        if let Ok((file, layer)) = opened(files, pending[0], dir, chain) {
            lemma_chain_is_short(chain, file);
            assert forall|i: int| 0 <= i < chain.len() implies (#[trigger] chain[i]).handle
                != file.handle by {}
            lemma_pending_strips_the_key(files, out, layer.pending, layer.dir, chain.push(file));
            if let Ok(below) = merge_pending(
                files,
                out,
                layer.pending,
                layer.dir,
                chain.push(file),
            ) {
                lemma_pending_strips_the_key(
                    files,
                    toml_tree::merged_tables(below, layer.table),
                    pending.skip(1),
                    dir,
                    chain,
                );
            }
        }
    }
}

/// The merged table lacks the key, however many of the sources have it.
pub proof fn law_key_is_stripped(
    files: FileTree,
    out: Map<Seq<char>, Toml>,
    table: Map<Seq<char>, Toml>,
    dir: u64,
    chain: Seq<FileView>,
)
    requires
        distinct(chain),
        !out.dom().contains(config_layers::INCLUDE_KEY@),
    ensures
        merge_source(files, out, table, dir, chain) matches Ok(merged) ==> !merged.dom().contains(
            config_layers::INCLUDE_KEY@,
        ),
{
    if let Ok(layer) = config_layers::layer_of(table, dir, chain) {
        lemma_pending_strips_the_key(files, out, layer.pending, layer.dir, chain);
    }
}

/// The including file wins: a scalar or an array of a source is in the merged
/// table, whatever its fragments hold there.
pub proof fn law_including_file_wins(
    files: FileTree,
    out: Map<Seq<char>, Toml>,
    table: Map<Seq<char>, Toml>,
    dir: u64,
    chain: Seq<FileView>,
    path: Seq<Seq<char>>,
)
    requires
        path.len() > 0,
        path[0] != config_layers::INCLUDE_KEY@,
        toml_tree::value_at(Toml::Table(table), path) matches Some(value) && !(value is Table),
    ensures
        merge_source(files, out, table, dir, chain) matches Ok(merged) ==> toml_tree::value_at(
            Toml::Table(merged),
            path,
        ) == toml_tree::value_at(Toml::Table(table), path),
{
    if let Ok(layer) = config_layers::layer_of(table, dir, chain) {
        if let Ok(below) = merge_pending(files, out, layer.pending, layer.dir, chain) {
            toml_tree::law_overlay_wins(Toml::Table(below), Toml::Table(layer.table), path);
        }
    }
}

/// What the fragments of a source come to where the source says nothing is in
/// the merged table.
pub proof fn law_fragments_fill_the_gaps(
    files: FileTree,
    out: Map<Seq<char>, Toml>,
    table: Map<Seq<char>, Toml>,
    dir: u64,
    chain: Seq<FileView>,
    path: Seq<Seq<char>>,
)
    requires
        toml_tree::silent_on(Toml::Table(table.remove(config_layers::INCLUDE_KEY@)), path),
    ensures
        match (
            merge_source(files, out, table, dir, chain),
            config_layers::layer_of(table, dir, chain),
        ) {
            (Ok(merged), Ok(layer)) => {
                let below = merge_pending(files, out, layer.pending, dir, chain);
                below matches Ok(below) && (toml_tree::value_at(Toml::Table(below), path) is Some
                    ==> toml_tree::value_at(Toml::Table(merged), path) == toml_tree::value_at(
                    Toml::Table(below),
                    path,
                ))
            },
            _ => true,
        },
{
    if let Ok(layer) = config_layers::layer_of(table, dir, chain) {
        if let Ok(below) = merge_pending(files, out, layer.pending, layer.dir, chain) {
            if toml_tree::value_at(Toml::Table(below), path) is Some {
                toml_tree::law_siblings_survive(
                    Toml::Table(below),
                    Toml::Table(layer.table),
                    path,
                );
            }
        }
    }
}

// ---------------------------------------------------------------------------
// Every fragment counts
// ---------------------------------------------------------------------------
/// Merging fragments takes no key away.
proof fn lemma_merging_keeps_keys(
    files: FileTree,
    out: Map<Seq<char>, Toml>,
    pending: Seq<Seq<char>>,
    dir: u64,
    chain: Seq<FileView>,
)
    requires
        distinct(chain),
    ensures
        merge_pending(files, out, pending, dir, chain) matches Ok(merged)
            ==> out.dom().subset_of(merged.dom()),
    decreases handle_count() - chain.len(), pending.len(),
{
    if pending.len() > 0 {
        if let Ok((file, layer)) = opened(files, pending[0], dir, chain) {
            lemma_chain_is_short(chain, file);
            assert forall|i: int| 0 <= i < chain.len() implies (#[trigger] chain[i]).handle
                != file.handle by {}
            lemma_merging_keeps_keys(files, out, layer.pending, layer.dir, chain.push(file));
            if let Ok(below) = merge_pending(
                files,
                out,
                layer.pending,
                layer.dir,
                chain.push(file),
            ) {
                let next = toml_tree::merged_tables(below, layer.table);
                toml_tree::law_merge_keys(below, layer.table);
                lemma_merging_keeps_keys(files, next, pending.skip(1), dir, chain);
            }
        }
    }
}

proof fn lemma_entry_counts(
    files: FileTree,
    out: Map<Seq<char>, Toml>,
    pending: Seq<Seq<char>>,
    dir: u64,
    chain: Seq<FileView>,
    i: int,
) -> (below: Map<Seq<char>, Toml>)
    requires
        distinct(chain),
        0 <= i < pending.len(),
        merge_pending(files, out, pending, dir, chain) is Ok,
    ensures
        opened(files, pending[i], dir, chain) matches Ok((file, layer)) && (merge_layer(
            files,
            below,
            layer,
            chain.push(file),
        ) matches Ok(part) && part.dom().subset_of(
            merge_pending(files, out, pending, dir, chain)->Ok_0.dom(),
        )),
{
    let first = pending.take(i);
    let rest = pending.skip(i + 1);
    assert(pending =~= first + (seq![pending[i]] + rest));
    law_fragments_in_order(files, out, first, seq![pending[i]] + rest, dir, chain);
    let below = merge_pending(files, out, first, dir, chain)->Ok_0;
    law_fragments_in_order(files, below, seq![pending[i]], rest, dir, chain);
    law_fragment_on_top(files, below, pending[i], dir, chain);
    let part = merge_pending(files, below, seq![pending[i]], dir, chain)->Ok_0;
    lemma_merging_keeps_keys(files, part, rest, dir, chain);
    below
}

/// The directory that the paths of a file are relative to: its own, or `dir` where
/// it has none.
pub open spec fn home_of(file: FileView, dir: u64) -> u64 {
    if file.parent is Some {
        file.parent->Some_0
    } else {
        dir
    }
}

/// Every fragment of the list counts: where a source merges, each string of its
/// array leads to a file that is read and parsed, and every key of that file but
/// the list, with all that its own fragments add, is in the merged table.
pub proof fn law_every_fragment_counts(
    files: FileTree,
    out: Map<Seq<char>, Toml>,
    table: Map<Seq<char>, Toml>,
    dir: u64,
    chain: Seq<FileView>,
    items: Seq<Toml>,
    i: int,
)
    requires
        distinct(chain),
        merge_source(files, out, table, dir, chain) is Ok,
        table.dom().contains("include"@),
        table["include"@] == Toml::Array(items),
        0 <= i < items.len(),
    ensures
        ({
            let merged = merge_source(files, out, table, dir, chain)->Ok_0;
            &&& items[i] matches Toml::Text(entry)
            &&& (files.resolve)(dir, entry) matches Ok(file)
            &&& (files.read)(file.handle) matches Ok(text)
            &&& toml_tree::toml_document(text) matches Ok(fragment)
            &&& forall|key: Seq<char>|
                fragment.dom().contains(key) && key != "include"@ ==> #[trigger] merged.dom().contains(
                    key,
                )
            &&& exists|below: Map<Seq<char>, Toml>|
                #[trigger] merge_source(
                    files,
                    below,
                    fragment,
                    home_of(file, dir),
                    chain.push(file),
                ) matches Ok(part) && part.dom().subset_of(merged.dom())
        }),
{
    config_layers::law_every_entry_is_taken(table, chain);
    let layer = config_layers::layer_of(table, dir, chain)->Ok_0;
    let entry = layer.pending[i];
    if exists|k: int| 0 <= k < items.len() && !((#[trigger] items[k]) is Text) {
        assert(false);
    }
    assert(items[i] == Toml::Text(entry));
    let below = lemma_entry_counts(files, out, layer.pending, dir, chain, i);
    let whole = merge_pending(files, out, layer.pending, dir, chain)->Ok_0;
    let merged = merge_source(files, out, table, dir, chain)->Ok_0;
    toml_tree::law_merge_keys(whole, layer.table);
    let (file, inner) = opened(files, entry, dir, chain)->Ok_0;
    let text = (files.read)(file.handle)->Ok_0;
    let fragment = toml_tree::toml_document(text)->Ok_0;
    config_layers::law_layer_of_a_file(file, dir, chain, text, Seq::empty());
    let under = merge_pending(files, below, inner.pending, inner.dir, chain.push(file))->Ok_0;
    toml_tree::law_merge_keys(under, inner.table);
    let part = merge_source(files, below, fragment, home_of(file, dir), chain.push(file));
    assert(part == merge_layer(files, below, inner, chain.push(file)));
    assert(part->Ok_0.dom().subset_of(merged.dom()));
    assert forall|key: Seq<char>|
        fragment.dom().contains(key) && key != "include"@ implies #[trigger] merged.dom().contains(
        key,
    ) by {
        assert(inner.table.dom().contains(key));
        assert(part->Ok_0.dom().contains(key));
    }
}

proof fn lemma_silent_fragments_keep_the_value(
    files: FileTree,
    out: Map<Seq<char>, Toml>,
    pending: Seq<Seq<char>>,
    dir: u64,
    chain: Seq<FileView>,
    path: Seq<Seq<char>>,
)
    requires
        distinct(chain),
        toml_tree::value_at(Toml::Table(out), path) is Some,
        forall|i: int|
            0 <= i < pending.len() ==> (opened(files, #[trigger] pending[i], dir, chain) matches Ok(
                (_, layer),
            ) ==> layer.pending.len() == 0 && toml_tree::silent_on(
                Toml::Table(layer.table),
                path,
            )),
    ensures
        merge_pending(files, out, pending, dir, chain) matches Ok(merged) ==> toml_tree::value_at(
            Toml::Table(merged),
            path,
        ) == toml_tree::value_at(Toml::Table(out), path),
    decreases pending.len(),
{
    if pending.len() > 0 {
        if let Ok((file, layer)) = opened(files, pending[0], dir, chain) {
            lemma_chain_is_short(chain, file);
            assert(layer.pending.len() == 0);
            let next = toml_tree::merged_tables(out, layer.table);
            assert(merge_pending(files, out, layer.pending, layer.dir, chain.push(file)) == Ok::<
                _,
                IncludeErrorView,
            >(out));
            toml_tree::law_siblings_survive(Toml::Table(out), Toml::Table(layer.table), path);
            let rest = pending.skip(1);
            assert forall|i: int| 0 <= i < rest.len() implies (opened(
                files,
                #[trigger] rest[i],
                dir,
                chain,
            ) matches Ok((_, layer)) ==> layer.pending.len() == 0 && toml_tree::silent_on(
                Toml::Table(layer.table),
                path,
            )) by {
                assert(rest[i] == pending[i + 1]);
            }
            lemma_silent_fragments_keep_the_value(files, next, rest, dir, chain, path);
        }
    }
}

/// A scalar or an array that a fragment of the list holds is in the merged table,
/// wherever in the list the fragment stands and however many there are, if the
/// including file and the fragments behind it say nothing there and those pull in
/// nothing more. So of several that hold one, the last counts.
pub proof fn law_value_of_any_fragment_survives(
    files: FileTree,
    out: Map<Seq<char>, Toml>,
    table: Map<Seq<char>, Toml>,
    dir: u64,
    chain: Seq<FileView>,
    items: Seq<Toml>,
    i: int,
    path: Seq<Seq<char>>,
)
    requires
        distinct(chain),
        merge_source(files, out, table, dir, chain) is Ok,
        table.dom().contains("include"@),
        table["include"@] == Toml::Array(items),
        0 <= i < items.len(),
        path.len() > 0,
        path[0] != "include"@,
        toml_tree::silent_on(Toml::Table(table.remove("include"@)), path),
        opened(files, items[i]->Text_0, dir, chain) matches Ok((_, layer)) && toml_tree::value_at(
            Toml::Table(layer.table),
            path,
        ) matches Some(value) && !(value is Table),
        forall|j: int|
            i < j < items.len() ==> (opened(files, (#[trigger] items[j])->Text_0, dir, chain)
                matches Ok((_, layer)) ==> layer.pending.len() == 0 && toml_tree::silent_on(
                Toml::Table(layer.table),
                path,
            )),
    ensures
        toml_tree::value_at(
            Toml::Table(merge_source(files, out, table, dir, chain)->Ok_0),
            path,
        ) == toml_tree::value_at(
            Toml::Table(opened(files, items[i]->Text_0, dir, chain)->Ok_0.1.table),
            path,
        ),
{
    config_layers::law_every_entry_is_taken(table, chain);
    if exists|k: int| 0 <= k < items.len() && !((#[trigger] items[k]) is Text) {
        assert(false);
    }
    let layer = config_layers::layer_of(table, dir, chain)->Ok_0;
    let pending = layer.pending;
    let first = pending.take(i);
    let rest = pending.skip(i + 1);
    assert(pending =~= first + seq![pending[i]] + rest);
    assert(items[i] == Toml::Text(pending[i]));
    law_fragments_in_order(files, out, first + seq![pending[i]], rest, dir, chain);
    let upto = merge_pending(files, out, first + seq![pending[i]], dir, chain)->Ok_0;
    law_later_fragment_wins(files, out, first, pending[i], dir, chain, path);
    assert forall|j: int| 0 <= j < rest.len() implies (opened(files, #[trigger] rest[j], dir, chain)
        matches Ok((_, layer)) ==> layer.pending.len() == 0 && toml_tree::silent_on(
        Toml::Table(layer.table),
        path,
    )) by {
        assert(items[i + 1 + j] == Toml::Text(rest[j]));
    }
    lemma_silent_fragments_keep_the_value(files, upto, rest, dir, chain, path);
    let below = merge_pending(files, out, pending, dir, chain)->Ok_0;
    toml_tree::law_siblings_survive(Toml::Table(below), Toml::Table(layer.table), path);
}

} // verus!
