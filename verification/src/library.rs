use vstd::prelude::*;
use crate::digest::{aggregate_digest_of};
use crate::document::{hashes_of, process_group, RemarkableObj};
use crate::files::ScannedFile;
use crate::group::group_files;
use crate::order::lex_leq_chars;
use crate::report::ScanIssue;

verus! {

/// The index of the first document carrying the identifier, or -1.
pub open spec fn idx_of(docs: Seq<RemarkableObj>, id: Seq<char>) -> int
    decreases docs.len(),
{
    if docs.len() == 0 {
        -1
    } else if docs[0].uuid@ == id {
        0
    } else {
        let r = idx_of(docs.drop_first(), id);
        if r < 0 {
            -1
        } else {
            r + 1
        }
    }
}

/// The raw parent of a document: -1 for the root (an empty or dangling
/// reference), otherwise the index of the parent document.
pub open spec fn parent_ref(docs: Seq<RemarkableObj>, i: int) -> int {
    if docs[i].metadata.parent@.len() == 0 {
        -1
    } else {
        idx_of(docs, docs[i].metadata.parent@)
    }
}

/// Whether following parent references from document `i` reaches the root
/// within `fuel` steps. A chain that never reaches the root within as many
/// steps as there are documents runs in a cycle.
pub open spec fn reaches_root(docs: Seq<RemarkableObj>, i: int, fuel: nat) -> bool
    decreases fuel,
{
    if fuel == 0 {
        false
    } else {
        let p = parent_ref(docs, i);
        if p < 0 {
            true
        } else {
            reaches_root(docs, p, (fuel - 1) as nat)
        }
    }
}

/// Where a document is attached once cycles are cut: its raw parent if its
/// chain reaches the root, else the root itself.
pub open spec fn resolved_parent(docs: Seq<RemarkableObj>, i: int) -> int {
    if reaches_root(docs, i, docs.len() + 1) {
        parent_ref(docs, i)
    } else {
        -1
    }
}

/// The cycle reports for the first `k` documents, in index order.
pub open spec fn cycle_issues_upto(docs: Seq<RemarkableObj>, k: int) -> Seq<ScanIssue>
    decreases k,
{
    if k <= 0 {
        Seq::empty()
    } else {
        let rest = cycle_issues_upto(docs, k - 1);
        if !reaches_root(docs, k - 1, docs.len() + 1) {
            rest.push(ScanIssue::ParentCycle { uuid: docs[k - 1].uuid })
        } else {
            rest
        }
    }
}

proof fn lemma_idx_of_at(docs: Seq<RemarkableObj>, id: Seq<char>, i: int)
    requires
        0 <= i < docs.len(),
        docs[i].uuid@ == id,
        forall|k: int| 0 <= k < i ==> (#[trigger] docs[k]).uuid@ != id,
    ensures
        idx_of(docs, id) == i,
    decreases i,
{
    if i > 0 {
        assert(docs.drop_first()[i - 1] == docs[i]);
        assert forall|k: int| 0 <= k < i - 1 implies (#[trigger] docs.drop_first()[k]).uuid@ != id by {
            assert(docs.drop_first()[k] == docs[k + 1]);
        }
        lemma_idx_of_at(docs.drop_first(), id, i - 1);
    }
}

proof fn lemma_idx_of_none(docs: Seq<RemarkableObj>, id: Seq<char>)
    requires
        forall|k: int| 0 <= k < docs.len() ==> (#[trigger] docs[k]).uuid@ != id,
    ensures
        idx_of(docs, id) == -1,
    decreases docs.len(),
{
    if docs.len() > 0 {
        assert forall|k: int| 0 <= k < docs.len() - 1 implies
            (#[trigger] docs.drop_first()[k]).uuid@ != id by {
            assert(docs.drop_first()[k] == docs[k + 1]);
        }
        lemma_idx_of_none(docs.drop_first(), id);
    }
}

/// Looks a document up by identifier; the first match wins.
fn find_doc(docs: &Vec<RemarkableObj>, id: &String) -> (r: Option<usize>)
    ensures
        match r {
            Some(j) => idx_of(docs@, id@) == j as int,
            None => idx_of(docs@, id@) == -1,
        },
{
    let mut j: usize = 0;
    while j < docs.len()
        invariant
            j <= docs@.len(),
            forall|k: int| 0 <= k < j ==> (#[trigger] docs@[k]).uuid@ != id@,
        decreases docs@.len() - j,
    {
        if docs[j].uuid.eq(id) {
            proof {
                lemma_idx_of_at(docs@, id@, j as int);
            }
            return Some(j);
        }
        j = j + 1;
    }
    proof {
        lemma_idx_of_none(docs@, id@);
    }
    None
}

/// Computes a document's raw parent slot.
fn parent_slot(docs: &Vec<RemarkableObj>, i: usize) -> (r: Option<usize>)
    requires
        i < docs@.len(),
    ensures
        match r {
            Some(j) => parent_ref(docs@, i as int) == j as int && j < docs@.len(),
            None => parent_ref(docs@, i as int) == -1,
        },
{
    if docs[i].metadata.parent.as_str().is_empty() {
        return None;
    }
    let parent = docs[i].metadata.parent.clone();
    proof {
        assert(parent@ == docs@[i as int].metadata.parent@);
    }
    match find_doc(docs, &parent) {
        Some(j) => {
            proof {
                lemma_idx_of_bound(docs@, parent@);
            }
            Some(j)
        },
        None => None,
    }
}

proof fn lemma_idx_of_bound(docs: Seq<RemarkableObj>, id: Seq<char>)
    ensures
        idx_of(docs, id) < docs.len(),
    decreases docs.len(),
{
    if docs.len() > 0 {
        lemma_idx_of_bound(docs.drop_first(), id);
    }
}

/// Whether following parents from `i` reaches the root within `fuel` steps.
fn reaches_exec(docs: &Vec<RemarkableObj>, i: usize, fuel: usize) -> (r: bool)
    requires
        i < docs@.len(),
    ensures
        r == reaches_root(docs@, i as int, fuel as nat),
    decreases fuel,
{
    if fuel == 0 {
        return false;
    }
    match parent_slot(docs, i) {
        None => true,
        Some(j) => reaches_exec(docs, j, fuel - 1),
    }
}

/// Resolves every document's parent reference into a forest: an empty or
/// dangling reference attaches the document at the root, and every document
/// whose parent chain runs in a cycle is reattached at the root and
/// reported by identifier.
pub fn build_forest(docs: &Vec<RemarkableObj>) -> (r: (Vec<Option<usize>>, Vec<ScanIssue>))
    ensures
        r.0@.len() == docs@.len(),
        forall|i: int| 0 <= i < docs@.len() ==> (match #[trigger] r.0@[i] {
            Some(j) => resolved_parent(docs@, i) == j as int,
            None => resolved_parent(docs@, i) == -1,
        }),
        forall|i: int| 0 <= i < docs@.len() && (#[trigger] docs@[i]).metadata.parent@.len() == 0
            ==> r.0@[i] is None,
        r.1@ == cycle_issues_upto(docs@, docs@.len() as int),
{
    let mut parents: Vec<Option<usize>> = Vec::new();
    let mut issues: Vec<ScanIssue> = Vec::new();
    let mut i: usize = 0;
    proof {
        assert(cycle_issues_upto(docs@, 0) =~= Seq::<ScanIssue>::empty());
    }
    while i < docs.len()
        invariant
            i <= docs@.len(),
            parents@.len() == i,
            forall|k: int| 0 <= k < i ==> (match #[trigger] parents@[k] {
                Some(j) => resolved_parent(docs@, k) == j as int,
                None => resolved_parent(docs@, k) == -1,
            }),
            forall|k: int| 0 <= k < i && (#[trigger] docs@[k]).metadata.parent@.len() == 0
                ==> parents@[k] is None,
            issues@ == cycle_issues_upto(docs@, i as int),
        decreases docs@.len() - i,
    {
        let slot = parent_slot(docs, i);
        let ok = match slot {
            None => true,
            Some(j) => reaches_exec(docs, j, docs.len()),
        };
        proof {
            assert(reaches_root(docs@, i as int, (docs@.len() + 1) as nat) == ok);
        }
        if ok {
            parents.push(slot);
        } else {
            parents.push(None);
            issues.push(ScanIssue::ParentCycle { uuid: docs[i].uuid.clone() });
            proof {
                assert(docs@[i as int].uuid@ == docs[i as int].uuid@);
            }
        }
        i = i + 1;
    }
    (parents, issues)
}

/// Law: a document whose parent chain runs in a cycle is named in the
/// cycle report.
pub proof fn lemma_cycle_issue_listed(docs: Seq<RemarkableObj>, i: int, k: int)
    requires
        0 <= i < k <= docs.len(),
        !reaches_root(docs, i, docs.len() + 1),
    ensures
        crate::report::reports_cycle(cycle_issues_upto(docs, k), docs[i].uuid@),
    decreases k,
{
    let cur = cycle_issues_upto(docs, k);
    let rest = cycle_issues_upto(docs, k - 1);
    if i == k - 1 {
        assert(cur[cur.len() - 1] matches ScanIssue::ParentCycle { uuid }
            && uuid@ == docs[i].uuid@);
    } else {
        lemma_cycle_issue_listed(docs, i, k - 1);
        assert forall|q: int| 0 <= q < rest.len() implies #[trigger] cur[q] == rest[q] by {}
        crate::report::lemma_reports_extend(rest, cur);
    }
}

/// Some returned document carries the identifier.
pub open spec fn some_doc_has_uuid(docs: Seq<RemarkableObj>, id: Seq<char>) -> bool {
    exists|i: int| 0 <= i < docs.len() && (#[trigger] docs[i]).uuid@ == id
}

/// The document is exactly what its identifier's group yields from these
/// files: the group has metadata, its winning metadata member decodes to
/// the document's record, and the document's file set mirrors the group's
/// non-metadata members.
pub open spec fn doc_yield_ok(files: Seq<ScannedFile>, doc: RemarkableObj) -> bool {
    let members = crate::group::files_with_stem(files, doc.uuid@);
    let ms = crate::document::meta_members(members, doc.uuid@);
    &&& ms.len() > 0
    &&& (crate::document::pick_meta(ms).data matches Some(b)
        && crate::metadata::metadata_of(b@) == Some(doc.metadata@))
    &&& doc.metadata_path == crate::document::pick_meta(ms).path
    &&& crate::document::doc_mirrors(doc, crate::document::content_members(members, doc.uuid@))
}

/// The fate of the identifier's group is visible in the result: a group
/// without metadata is reported missing, one with several metadata files is
/// reported duplicated, one whose winning metadata member decodes yields a
/// document under the identifier, and one whose winner does not decode is
/// reported malformed.
pub open spec fn group_outcome_reported(
    files: Seq<ScannedFile>,
    id: Seq<char>,
    docs: Seq<RemarkableObj>,
    issues: Seq<ScanIssue>,
) -> bool {
    let members = crate::group::files_with_stem(files, id);
    let ms = crate::document::meta_members(members, id);
    &&& (ms.len() == 0 ==> crate::report::reports_missing(issues, id))
    &&& (ms.len() >= 2 ==> crate::report::reports_duplicate(issues, id))
    &&& (ms.len() > 0 ==> (match crate::document::pick_meta(ms).data {
        Some(b) => (match crate::metadata::metadata_of(b@) {
            Some(mv) => some_doc_has_uuid(docs, id),
            None => crate::report::reports_malformed(issues, id),
        }),
        None => crate::report::reports_malformed(issues, id),
    }))
}

/// Every path skipped for want of an identifier is reported.
pub open spec fn all_skipped_reported(paths: Seq<String>, issues: Seq<ScanIssue>) -> bool {
    forall|t: int| #![trigger paths[t]] 0 <= t < paths.len()
        ==> crate::report::reports_skipped(issues, paths[t]@)
}

/// The complete result of one scan: every assembled document, and for each
/// the index of its parent document, or none for a document at the library
/// root.
pub struct Library {
    pub documents: Vec<RemarkableObj>,
    pub parent_of: Vec<Option<usize>>,
}

/// Builds the library from the scanned files: groups them by identifier,
/// assembles each complete group into a document, resolves the parent
/// forest, and collects every non-fatal issue met on the way. Scanning
/// nothing yields an empty library and an empty report.
#[verifier::rlimit(100)]
pub fn scan_files(files: Vec<ScannedFile>) -> (r: (Library, Vec<ScanIssue>))
    ensures
        r.0.documents@.len() == r.0.parent_of@.len(),
        files@.len() == 0 ==> r.0.documents@.len() == 0 && r.1@.len() == 0,
        forall|i: int| 0 <= i < r.0.documents@.len()
            ==> (#[trigger] r.0.documents@[i]).content_hash@
                == aggregate_digest_of(hashes_of(r.0.documents@[i].file_paths@)),
        forall|i: int| 0 <= i < r.0.documents@.len()
            ==> doc_yield_ok(files@, #[trigger] r.0.documents@[i]),
        forall|i: int| 0 <= i < r.0.documents@.len()
            ==> crate::document::doc_unreadables_reported(#[trigger] r.0.documents@[i], r.1@),
        forall|j: int| #![trigger files@[j].name] 0 <= j < files@.len()
            && crate::files::spec_stem(files@[j].name@) is Some
            ==> group_outcome_reported(
                files@,
                crate::files::spec_stem(files@[j].name@)->Some_0,
                r.0.documents@,
                r.1@,
            ),
        all_skipped_reported(crate::group::skipped_paths(files@), r.1@),
        forall|i: int| 0 <= i < r.0.documents@.len()
            && (#[trigger] r.0.documents@[i]).metadata.parent@.len() == 0
            ==> r.0.parent_of@[i] is None,
        forall|i: int| 0 <= i < r.0.documents@.len() ==> (match #[trigger] r.0.parent_of@[i] {
            Some(j) => resolved_parent(r.0.documents@, i) == j as int,
            None => resolved_parent(r.0.documents@, i) == -1,
        }),
        forall|i: int| 0 <= i < r.0.documents@.len()
            && !reaches_root(r.0.documents@, i, r.0.documents@.len() + 1)
            ==> crate::report::reports_cycle(r.1@, (#[trigger] r.0.documents@[i]).uuid@),
        forall|i1: int, i2: int| 0 <= i1 < i2 < r.0.documents@.len()
            ==> (#[trigger] r.0.documents@[i1]).uuid@ != (#[trigger] r.0.documents@[i2]).uuid@,
{
    let ghost forig = files@;
    if files.is_empty() {
        let lib = Library { documents: Vec::new(), parent_of: Vec::new() };
        proof {
            assert(crate::group::skipped_paths(forig) =~= Seq::<String>::empty());
        }
        return (lib, Vec::new());
    }
    let (groups, skipped) = group_files(files);
    let ghost fgroups = groups@;
    let ghost spaths = skipped@;
    let mut issues: Vec<ScanIssue> = Vec::new();
    let mut rest_skipped = skipped;
    let ghost mut t: int = 0;
    proof {
        assert(rest_skipped@ =~= spaths.subrange(0, spaths.len() as int));
    }
    while rest_skipped.len() > 0
        invariant
            0 <= t,
            t + rest_skipped@.len() == spaths.len(),
            rest_skipped@ == spaths.subrange(t, spaths.len() as int),
            all_skipped_reported(spaths.subrange(0, t), issues@),
        decreases rest_skipped@.len(),
    {
        let ghost issues0 = issues@;
        let p = rest_skipped.remove(0);
        proof {
            assert(p == spaths[t]);
            assert(rest_skipped@ =~= spaths.subrange(t + 1, spaths.len() as int));
        }
        issues.push(ScanIssue::FileSkipped { path: p });
        proof {
            t = t + 1;
            crate::report::lemma_reports_extend(issues0, issues@);
            assert forall|q: int| #![trigger spaths.subrange(0, t)[q]]
                0 <= q < t implies
                crate::report::reports_skipped(issues@, spaths.subrange(0, t)[q]@) by {
                assert(spaths.subrange(0, t)[q] == spaths[q]);
                if q < t - 1 {
                    assert(spaths.subrange(0, t - 1)[q] == spaths[q]);
                    assert(crate::report::reports_skipped(issues0, spaths[q]@));
                } else {
                    assert(issues@[issues@.len() - 1] matches ScanIssue::FileSkipped { path }
                        && path@ == spaths[q]@);
                }
            }
        }
    }
    proof {
        assert(spaths.subrange(0, t) =~= spaths);
    }
    let mut docs: Vec<RemarkableObj> = Vec::new();
    let mut rest_groups = groups;
    let ghost mut done: int = 0;
    proof {
        assert(rest_groups@ =~= fgroups.subrange(0, fgroups.len() as int));
    }
    while rest_groups.len() > 0
        invariant
            forig == files@,
            0 <= done,
            done + rest_groups@.len() == fgroups.len(),
            rest_groups@ == fgroups.subrange(done, fgroups.len() as int),
            forall|gg: int| 0 <= gg < fgroups.len()
                ==> (#[trigger] fgroups[gg]).files@
                    == crate::group::files_with_stem(forig, fgroups[gg].id@),
            forall|g1: int, g2: int| 0 <= g1 < g2 < fgroups.len()
                ==> lex_leq_chars((#[trigger] fgroups[g1]).id@, (#[trigger] fgroups[g2]).id@)
                    && fgroups[g1].id@ != fgroups[g2].id@,
            forall|i1: int, i2: int| 0 <= i1 < i2 < docs@.len()
                ==> lex_leq_chars((#[trigger] docs@[i1]).uuid@, (#[trigger] docs@[i2]).uuid@)
                    && docs@[i1].uuid@ != docs@[i2].uuid@,
            forall|i: int, g: int| 0 <= i < docs@.len() && done <= g < fgroups.len()
                ==> lex_leq_chars((#[trigger] docs@[i]).uuid@, (#[trigger] fgroups[g]).id@)
                    && docs@[i].uuid@ != fgroups[g].id@,
            forall|i: int| 0 <= i < docs@.len()
                ==> (#[trigger] docs@[i]).content_hash@
                    == aggregate_digest_of(hashes_of(docs@[i].file_paths@)),
            forall|i: int| 0 <= i < docs@.len() ==> doc_yield_ok(forig, #[trigger] docs@[i]),
            forall|i: int| 0 <= i < docs@.len()
                ==> crate::document::doc_unreadables_reported(#[trigger] docs@[i], issues@),
            forall|g: int| #![trigger fgroups[g].id] 0 <= g < done
                ==> group_outcome_reported(forig, fgroups[g].id@, docs@, issues@),
            all_skipped_reported(spaths, issues@),
        decreases rest_groups@.len(),
    {
        let g = rest_groups.remove(0);
        proof {
            assert(g == fgroups[done]);
            assert(rest_groups@ =~= fgroups.subrange(done + 1, fgroups.len() as int));
        }
        let ghost issues0 = issues@;
        let ghost docs0 = docs@;
        let ghost gid = g.id@;
        let ghost gfiles = g.files@;
        let (doc, mut gi) = process_group(g);
        let ghost giv = gi@;
        issues.append(&mut gi);
        match doc {
            Some(d) => {
                proof {
                    assert(d.uuid@ == gid);
                    assert(crate::group::files_with_stem(forig, d.uuid@) == gfiles);
                    assert(doc_yield_ok(forig, d));
                }
                docs.push(d);
            },
            None => {},
        }
        proof {
            done = done + 1;
            assert forall|i1: int, i2: int| 0 <= i1 < i2 < docs@.len() implies
                lex_leq_chars((#[trigger] docs@[i1]).uuid@, (#[trigger] docs@[i2]).uuid@)
                    && docs@[i1].uuid@ != docs@[i2].uuid@ by {
                if i2 < docs0.len() {
                    assert(docs@[i1] == docs0[i1]);
                    assert(docs@[i2] == docs0[i2]);
                } else {
                    assert(docs@[i1] == docs0[i1]);
                    assert(docs@[i2].uuid@ == gid);
                    assert(lex_leq_chars(docs0[i1].uuid@, fgroups[done - 1].id@)
                        && docs0[i1].uuid@ != fgroups[done - 1].id@);
                }
            }
            assert forall|i: int, g: int| 0 <= i < docs@.len() && done <= g < fgroups.len() implies
                lex_leq_chars((#[trigger] docs@[i]).uuid@, (#[trigger] fgroups[g]).id@)
                    && docs@[i].uuid@ != fgroups[g].id@ by {
                if i < docs0.len() {
                    assert(docs@[i] == docs0[i]);
                } else {
                    assert(docs@[i].uuid@ == fgroups[done - 1].id@);
                    assert(lex_leq_chars(fgroups[done - 1].id@, fgroups[g].id@)
                        && fgroups[done - 1].id@ != fgroups[g].id@);
                }
            }
            assert(issues@ == issues0 + giv);
            assert forall|q: int| 0 <= q < issues0.len() implies #[trigger] issues@[q] == issues0[q] by {}
            crate::report::lemma_reports_extend(issues0, issues@);
            crate::report::lemma_reports_prepend(issues0, giv, issues@);
            assert forall|i: int| 0 <= i < docs@.len() implies
                crate::document::doc_unreadables_reported(#[trigger] docs@[i], issues@) by {
                if i < docs0.len() {
                    assert(docs@[i] == docs0[i]);
                    assert forall|k: int| #![trigger docs@[i].file_paths@[k]]
                        0 <= k < docs@[i].file_paths@.len()
                        && docs@[i].file_paths@[k].hash is None implies
                        crate::report::reports_unreadable(issues@, docs@[i].file_paths@[k].path@) by {
                        assert(crate::report::reports_unreadable(issues0, docs0[i].file_paths@[k].path@));
                    }
                } else {
                    assert forall|k: int| #![trigger docs@[i].file_paths@[k]]
                        0 <= k < docs@[i].file_paths@.len()
                        && docs@[i].file_paths@[k].hash is None implies
                        crate::report::reports_unreadable(issues@, docs@[i].file_paths@[k].path@) by {
                        assert(crate::report::reports_unreadable(giv, docs@[i].file_paths@[k].path@));
                    }
                }
            }
            assert forall|g2: int| #![trigger fgroups[g2].id] 0 <= g2 < done implies
                group_outcome_reported(forig, fgroups[g2].id@, docs@, issues@) by {
                let members = crate::group::files_with_stem(forig, fgroups[g2].id@);
                let ms = crate::document::meta_members(members, fgroups[g2].id@);
                if g2 < done - 1 {
                    assert(group_outcome_reported(forig, fgroups[g2].id@, docs0, issues0));
                    if ms.len() > 0 && some_doc_has_uuid(docs0, fgroups[g2].id@) {
                        let i0 = choose|i0: int| 0 <= i0 < docs0.len()
                            && (#[trigger] docs0[i0]).uuid@ == fgroups[g2].id@;
                        assert(docs@[i0] == docs0[i0]);
                    }
                } else {
                    assert(fgroups[g2].id@ == gid);
                    assert(members == gfiles);
                    if ms.len() > 0 {
                        match crate::document::pick_meta(ms).data {
                            Some(b) => {
                                match crate::metadata::metadata_of(b@) {
                                    Some(mv) => {
                                        assert(docs@[docs@.len() - 1].uuid@ == gid);
                                    },
                                    None => {},
                                }
                            },
                            None => {},
                        }
                    }
                }
            }
        }
    }
    proof {
        assert(fgroups.subrange(done, fgroups.len() as int).len() == 0);
    }
    let ghost issues1 = issues@;
    let ghost docs1 = docs@;
    let (parents, mut cycle_issues) = build_forest(&docs);
    issues.append(&mut cycle_issues);
    proof {
        assert forall|q: int| 0 <= q < issues1.len() implies #[trigger] issues@[q] == issues1[q] by {}
        crate::report::lemma_reports_extend(issues1, issues@);
        assert forall|i: int| 0 <= i < docs@.len() implies
            crate::document::doc_unreadables_reported(#[trigger] docs@[i], issues@) by {
            assert forall|k: int| #![trigger docs@[i].file_paths@[k]]
                0 <= k < docs@[i].file_paths@.len()
                && docs@[i].file_paths@[k].hash is None implies
                crate::report::reports_unreadable(issues@, docs@[i].file_paths@[k].path@) by {
                assert(crate::report::reports_unreadable(issues1, docs@[i].file_paths@[k].path@));
            }
        }
        assert forall|g2: int| #![trigger fgroups[g2].id] 0 <= g2 < fgroups.len() implies
            group_outcome_reported(forig, fgroups[g2].id@, docs@, issues@) by {
            assert(group_outcome_reported(forig, fgroups[g2].id@, docs1, issues1));
        }
        // every identifier in the input is covered by some group's outcome
        assert forall|j: int| #![trigger forig[j].name] 0 <= j < forig.len()
            && crate::files::spec_stem(forig[j].name@) is Some implies
            group_outcome_reported(
                forig,
                crate::files::spec_stem(forig[j].name@)->Some_0,
                docs@,
                issues@,
            ) by {
            let st = crate::files::spec_stem(forig[j].name@)->Some_0;
            let gw = choose|gw: int| 0 <= gw < fgroups.len()
                && Some((#[trigger] fgroups[gw]).id@) == crate::files::spec_stem(forig[j].name@);
            assert(fgroups[gw].id@ == st);
            assert(group_outcome_reported(forig, fgroups[gw].id@, docs@, issues@));
        }
        assert(forig.len() > 0);
        crate::report::lemma_reports_prepend(issues1, cycle_issues_upto(docs@, docs@.len() as int), issues@);
        assert forall|i: int| 0 <= i < docs@.len()
            && !reaches_root(docs@, i, docs@.len() + 1) implies
            crate::report::reports_cycle(issues@, (#[trigger] docs@[i]).uuid@) by {
            lemma_cycle_issue_listed(docs@, i, docs@.len() as int);
        }
    }
    let lib = Library { documents: docs, parent_of: parents };
    (lib, issues)
}

} // verus!
