//! What is shown of searches, and what is passed on of changes.

use vstd::prelude::*;

use crate::commands;
use crate::dates;
use crate::ingest::IngestAction;
use crate::query::{InspectResult, MatchPointer, QueryResult};
use crate::reports;
use crate::watcher::{FsWatcher, RawChange};

verus! {

// ── Lines ───────────────────────────────────────────────────────────────────

proof fn lemma_match_shown(ms: Seq<MatchPointer>, n: int, k: int, line: Seq<char>)
    requires
        0 <= k < n <= ms.len(),
        reports::match_lines_spec(ms[k]).contains(line),
    ensures
        reports::matches_lines(ms, n).contains(line),
    decreases n,
{
    let front = reports::matches_lines(ms, n - 1);
    let own = reports::match_lines_spec(ms[n - 1]);
    let all = reports::matches_lines(ms, n);
    if k < n - 1 {
        lemma_match_shown(ms, n - 1, k, line);
        let i = front.index_of(line);
        assert(all[i] == line);
    } else {
        let i = own.index_of(line);
        assert(all[front.len() + i] == line);
    }
}

/// A search is shown with its number of matches, and each match with its path, its id and all of its
/// chunks, each with its id, its kind, where it starts and ends, and its label.
pub proof fn law_search_shown(r: QueryResult, k: int, j: int, label: Seq<char>)
    requires
        0 <= k < r.matches@.len(),
        0 <= j < r.matches@[k].chunks@.len(),
        r.matches@[k].chunks@[j].label matches Some(l) && l@ == label,
    ensures
        ({
            let lines = reports::search_lines_spec(r);
            let m = r.matches@[k];
            let c = m.chunks@[j];
            &&& lines[0].take(dates::decimal_spec(r.total_matching as nat).len() as int)
                == dates::decimal_spec(r.total_matching as nat)
            &&& lines.contains(
                "  "@ + m.file_path@ + " (doc_id="@ + dates::decimal_spec(m.doc_id as nat) + ")"@,
            )
            &&& lines.contains(
                "    chunk "@ + dates::decimal_spec(c.chunk_id as nat) + " ("@ + c.kind@ + ")"@ + (
                " bytes "@ + dates::decimal_spec(c.byte_start as nat) + ".."@ + dates::decimal_spec(
                    c.byte_end as nat,
                ) + " "@ + label),
            )
        }),
{
    let lines = reports::search_lines_spec(r);
    let ms = r.matches@;
    let m = ms[k];
    let own = reports::match_lines_spec(m);
    let all = reports::matches_lines(ms, ms.len() as int);
    let n = dates::decimal_spec(r.total_matching as nat);
    assert(lines[0].take(n.len() as int) =~= n);
    assert(own[0] == "  "@ + m.file_path@ + " (doc_id="@ + dates::decimal_spec(m.doc_id as nat)
        + ")"@);
    lemma_match_shown(ms, ms.len() as int, k, own[0]);
    assert(own[2 + j] == reports::chunk_line_spec(m.chunks@[j]));
    lemma_match_shown(ms, ms.len() as int, k, own[2 + j]);
    let a = all.index_of(own[0]);
    assert(lines[2 + a] == own[0]);
    let b = all.index_of(own[2 + j]);
    assert(lines[2 + b] == own[2 + j]);
}

/// A document is shown with its path, its hash, and one line for each of its chunks.
pub proof fn law_document_shown(d: InspectResult, j: int)
    requires
        0 <= j < d.chunks@.len(),
    ensures
        ({
            let lines = reports::inspect_lines_spec(d);
            &&& lines.len() == d.chunks@.len() + 8
            &&& lines[0] == "Document: "@ + d.file_path@
            &&& lines[4] == "  blake3:       "@ + d.blake3_hash@
            &&& lines[7 + j].take(5) == "    ["@
        }),
{
    let lines = reports::inspect_lines_spec(d);
    reveal_strlit("    [");
    assert(lines[7 + j] == reports::part_line_spec(d.chunks@[j]));
    assert(lines[7 + j].take(5) =~= "    ["@);
}

/// The word for what was done with a file.
pub proof fn law_action_words()
    ensures
        commands::action_name_spec(IngestAction::Indexed) == "indexed"@,
        commands::action_name_spec(IngestAction::Updated) == "updated"@,
        commands::action_name_spec(IngestAction::Skipped) == "skipped"@,
        commands::action_name_spec(IngestAction::Tombstoned) == "tombstoned"@,
        commands::action_name_spec(IngestAction::Moved) == "moved"@,
{
}

// ── Changes ─────────────────────────────────────────────────────────────────

proof fn lemma_passed_on(w: FsWatcher, changes: Seq<RawChange>, i: int, c: RawChange)
    requires
        0 <= i <= changes.len(),
    ensures
        w.passed_on(changes, i).contains(c) <==> exists|k: int|
            i <= k < changes.len() && #[trigger] changes[k] == c && c.settled && !w.ignores(c.path@),
    decreases changes.len() - i,
{
    let all = w.passed_on(changes, i);
    if i < changes.len() {
        let rest = w.passed_on(changes, i + 1);
        lemma_passed_on(w, changes, i + 1, c);
        if changes[i].settled && !w.ignores(changes[i].path@) {
            assert(all == seq![changes[i]] + rest);
            assert(all[0] == changes[i]);
            if rest.contains(c) {
                let m = rest.index_of(c);
                assert(all[m + 1] == c);
            }
            if all.contains(c) {
                let m = all.index_of(c);
                if m > 0 {
                    assert(rest[m - 1] == c);
                }
            }
        }
    } else {
        assert(all.len() == 0);
    }
}

/// A change is passed on where it has settled and its path is not ignored, and not otherwise.
pub proof fn law_changes_passed_on(w: FsWatcher, changes: Seq<RawChange>, c: RawChange)
    ensures
        w.passed_on(changes, 0).contains(c) <==> changes.contains(c) && c.settled && !w.ignores(
            c.path@,
        ),
{
    lemma_passed_on(w, changes, 0, c);
    if changes.contains(c) {
        let k = changes.index_of(c);
        assert(changes[k] == c);
    }
}

} // verus!
