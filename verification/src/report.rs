use vstd::prelude::*;

verus! {

/// One non-fatal condition met during a scan. Only an unreadable root
/// aborts a scan; every other problem is collected here, beside the
/// (possibly partial) library.
pub enum ScanIssue {
    /// A subdirectory could not be read; its files are absent from the scan.
    DirectoryUnreadable { path: String },
    /// A file could not be read; it is kept in its document with no digest.
    FileUnreadable { path: String },
    /// A file name carries no identifier; the file was skipped.
    FileSkipped { path: String },
    /// A group has no metadata file; it yields no document.
    MetadataMissing { uuid: String },
    /// A group's metadata file does not decode; it yields no document.
    MetadataMalformed { uuid: String },
    /// A document's parent chain never reaches the root; the document was
    /// reattached at the root.
    ParentCycle { uuid: String },
    /// Several metadata files share one identifier; the lexicographically
    /// last path won.
    DuplicateIdentifier { uuid: String },
}

/// The report names the identifier as missing its metadata.
pub open spec fn reports_missing(issues: Seq<ScanIssue>, id: Seq<char>) -> bool {
    exists|t: int| 0 <= t < issues.len()
        && ((#[trigger] issues[t]) matches ScanIssue::MetadataMissing { uuid } && uuid@ == id)
}

/// The report names the identifier as carrying malformed metadata.
pub open spec fn reports_malformed(issues: Seq<ScanIssue>, id: Seq<char>) -> bool {
    exists|t: int| 0 <= t < issues.len()
        && ((#[trigger] issues[t]) matches ScanIssue::MetadataMalformed { uuid } && uuid@ == id)
}

/// The report names the identifier as duplicated.
pub open spec fn reports_duplicate(issues: Seq<ScanIssue>, id: Seq<char>) -> bool {
    exists|t: int| 0 <= t < issues.len()
        && ((#[trigger] issues[t]) matches ScanIssue::DuplicateIdentifier { uuid } && uuid@ == id)
}

/// The report names the path as unreadable.
pub open spec fn reports_unreadable(issues: Seq<ScanIssue>, path: Seq<char>) -> bool {
    exists|t: int| 0 <= t < issues.len()
        && ((#[trigger] issues[t]) matches ScanIssue::FileUnreadable { path: p } && p@ == path)
}

/// The report names the path as skipped.
pub open spec fn reports_skipped(issues: Seq<ScanIssue>, path: Seq<char>) -> bool {
    exists|t: int| 0 <= t < issues.len()
        && ((#[trigger] issues[t]) matches ScanIssue::FileSkipped { path: p } && p@ == path)
}

/// The report names the identifier as sitting in a parent cycle.
pub open spec fn reports_cycle(issues: Seq<ScanIssue>, id: Seq<char>) -> bool {
    exists|t: int| 0 <= t < issues.len()
        && ((#[trigger] issues[t]) matches ScanIssue::ParentCycle { uuid } && uuid@ == id)
}

/// Reports survive appending further issues: whatever a prefix of the
/// report names, the whole report names too.
pub proof fn lemma_reports_extend(s: Seq<ScanIssue>, t: Seq<ScanIssue>)
    requires
        s.len() <= t.len(),
        forall|i: int| 0 <= i < s.len() ==> #[trigger] t[i] == s[i],
    ensures
        forall|id: Seq<char>| reports_missing(s, id) ==> #[trigger] reports_missing(t, id),
        forall|id: Seq<char>| reports_malformed(s, id) ==> #[trigger] reports_malformed(t, id),
        forall|id: Seq<char>| reports_duplicate(s, id) ==> #[trigger] reports_duplicate(t, id),
        forall|p: Seq<char>| reports_unreadable(s, p) ==> #[trigger] reports_unreadable(t, p),
        forall|p: Seq<char>| reports_skipped(s, p) ==> #[trigger] reports_skipped(t, p),
        forall|id: Seq<char>| reports_cycle(s, id) ==> #[trigger] reports_cycle(t, id),
{
    assert forall|id: Seq<char>| reports_missing(s, id) implies #[trigger] reports_missing(t, id) by {
        let t0 = choose|t0: int| 0 <= t0 < s.len()
            && ((#[trigger] s[t0]) matches ScanIssue::MetadataMissing { uuid } && uuid@ == id);
        assert(t[t0] == s[t0]);
    }
    assert forall|id: Seq<char>| reports_malformed(s, id) implies #[trigger] reports_malformed(t, id) by {
        let t0 = choose|t0: int| 0 <= t0 < s.len()
            && ((#[trigger] s[t0]) matches ScanIssue::MetadataMalformed { uuid } && uuid@ == id);
        assert(t[t0] == s[t0]);
    }
    assert forall|id: Seq<char>| reports_duplicate(s, id) implies #[trigger] reports_duplicate(t, id) by {
        let t0 = choose|t0: int| 0 <= t0 < s.len()
            && ((#[trigger] s[t0]) matches ScanIssue::DuplicateIdentifier { uuid } && uuid@ == id);
        assert(t[t0] == s[t0]);
    }
    assert forall|p: Seq<char>| reports_unreadable(s, p) implies #[trigger] reports_unreadable(t, p) by {
        let t0 = choose|t0: int| 0 <= t0 < s.len()
            && ((#[trigger] s[t0]) matches ScanIssue::FileUnreadable { path } && path@ == p);
        assert(t[t0] == s[t0]);
    }
    assert forall|p: Seq<char>| reports_skipped(s, p) implies #[trigger] reports_skipped(t, p) by {
        let t0 = choose|t0: int| 0 <= t0 < s.len()
            && ((#[trigger] s[t0]) matches ScanIssue::FileSkipped { path } && path@ == p);
        assert(t[t0] == s[t0]);
    }
    assert forall|id: Seq<char>| reports_cycle(s, id) implies #[trigger] reports_cycle(t, id) by {
        let t0 = choose|t0: int| 0 <= t0 < s.len()
            && ((#[trigger] s[t0]) matches ScanIssue::ParentCycle { uuid } && uuid@ == id);
        assert(t[t0] == s[t0]);
    }
}

/// Whatever the appended tail names, the whole report names too.
pub proof fn lemma_reports_prepend(s: Seq<ScanIssue>, u: Seq<ScanIssue>, t: Seq<ScanIssue>)
    requires
        t == s + u,
    ensures
        forall|id: Seq<char>| reports_missing(u, id) ==> #[trigger] reports_missing(t, id),
        forall|id: Seq<char>| reports_malformed(u, id) ==> #[trigger] reports_malformed(t, id),
        forall|id: Seq<char>| reports_duplicate(u, id) ==> #[trigger] reports_duplicate(t, id),
        forall|p: Seq<char>| reports_unreadable(u, p) ==> #[trigger] reports_unreadable(t, p),
        forall|id: Seq<char>| reports_cycle(u, id) ==> #[trigger] reports_cycle(t, id),
{
    assert forall|id: Seq<char>| reports_missing(u, id) implies #[trigger] reports_missing(t, id) by {
        let t0 = choose|t0: int| 0 <= t0 < u.len()
            && ((#[trigger] u[t0]) matches ScanIssue::MetadataMissing { uuid } && uuid@ == id);
        assert(t[s.len() + t0] == u[t0]);
    }
    assert forall|id: Seq<char>| reports_malformed(u, id) implies #[trigger] reports_malformed(t, id) by {
        let t0 = choose|t0: int| 0 <= t0 < u.len()
            && ((#[trigger] u[t0]) matches ScanIssue::MetadataMalformed { uuid } && uuid@ == id);
        assert(t[s.len() + t0] == u[t0]);
    }
    assert forall|id: Seq<char>| reports_duplicate(u, id) implies #[trigger] reports_duplicate(t, id) by {
        let t0 = choose|t0: int| 0 <= t0 < u.len()
            && ((#[trigger] u[t0]) matches ScanIssue::DuplicateIdentifier { uuid } && uuid@ == id);
        assert(t[s.len() + t0] == u[t0]);
    }
    assert forall|p: Seq<char>| reports_unreadable(u, p) implies #[trigger] reports_unreadable(t, p) by {
        let t0 = choose|t0: int| 0 <= t0 < u.len()
            && ((#[trigger] u[t0]) matches ScanIssue::FileUnreadable { path } && path@ == p);
        assert(t[s.len() + t0] == u[t0]);
    }
    assert forall|id: Seq<char>| reports_cycle(u, id) implies #[trigger] reports_cycle(t, id) by {
        let t0 = choose|t0: int| 0 <= t0 < u.len()
            && ((#[trigger] u[t0]) matches ScanIssue::ParentCycle { uuid } && uuid@ == id);
        assert(t[s.len() + t0] == u[t0]);
    }
}

} // verus!
