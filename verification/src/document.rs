use vstd::prelude::*;
use crate::digest::{aggregate_digest, aggregate_digest_of, sha256_of};
use crate::files::{spec_stem, stem_of, FileWithHash, ScannedFile};
use crate::group::FileGroup;
use crate::metadata::{decode_metadata, metadata_of, RemarkableMetadata};
use crate::order::{lex_leq_chars, strings_leq};
use crate::report::ScanIssue;

verus! {

/// One assembled document: the shared identifier, the aggregate content
/// digest over the sibling files, the path and decoded record of the
/// sidecar metadata file, and the digested sibling files themselves.
pub struct RemarkableObj {
    pub uuid: String,
    pub content_hash: Vec<u8>,
    pub metadata_path: String,
    pub metadata: RemarkableMetadata,
    pub file_paths: Vec<FileWithHash>,
}

/// The digests present among already-digested files, in order.
pub open spec fn hashes_of(files: Seq<FileWithHash>) -> Seq<Seq<u8>>
    decreases files.len(),
{
    if files.len() == 0 {
        Seq::empty()
    } else {
        let rest = hashes_of(files.drop_last());
        match files.last().hash {
            Some(h) => rest.push(h@),
            None => rest,
        }
    }
}

/// The digests of the readable files among scanned files, in order.
pub open spec fn present_digests(files: Seq<ScannedFile>) -> Seq<Seq<u8>>
    decreases files.len(),
{
    if files.len() == 0 {
        Seq::empty()
    } else {
        let rest = present_digests(files.drop_last());
        match files.last().data {
            Some(d) => rest.push(sha256_of(d@)),
            None => rest,
        }
    }
}

/// Whether a file name is the metadata file name of the given identifier.
pub open spec fn is_meta_name(name: Seq<char>, id: Seq<char>) -> bool {
    name == id + ".metadata"@
}

impl RemarkableObj {
    /// Replaces everything from the first extension separator of `name` on
    /// with the given extension; an empty extension strips the separator
    /// too. A name with no identifier is merely extended.
    pub fn set_file_extension(name: &String, extension: &str) -> (r: String)
        ensures
            (match spec_stem(name@) {
                Some(st) => r@ == if extension@.len() == 0 {
                    st
                } else {
                    st + ".."@.subrange(0, 1) + extension@
                },
                None => r@ == if extension@.len() == 0 {
                    name@
                } else {
                    name@ + ".."@.subrange(0, 1) + extension@
                },
            }),
    {
        let base = match stem_of(name) {
            Some(st) => st,
            None => name.clone(),
        };
        if extension.unicode_len() == 0 {
            base
        } else {
            proof {
                reveal_strlit(".");
                reveal_strlit("..");
                assert("."@ =~= ".."@.subrange(0, 1));
            }
            base.concat(".").concat(extension)
        }
    }

    /// Assembles one document from its identifier, its chosen metadata file
    /// and record, and its non-metadata sibling files: every readable file
    /// is digested, and the digests combine into the aggregate content
    /// digest in the canonical order.
    pub fn new(
        uuid: String,
        metadata_path: String,
        metadata: RemarkableMetadata,
        files: Vec<ScannedFile>,
    ) -> (r: RemarkableObj)
        ensures
            r.uuid == uuid,
            r.metadata_path == metadata_path,
            r.metadata == metadata,
            r.file_paths@.len() == files@.len(),
            forall|k: int| 0 <= k < files@.len() ==> ({
                &&& (#[trigger] r.file_paths@[k]).path == files@[k].path
                &&& (match files@[k].data {
                    Some(d) => r.file_paths@[k].hash matches Some(h) && h@ == sha256_of(d@),
                    None => r.file_paths@[k].hash is None,
                })
            }),
            r.content_hash@ == aggregate_digest_of(present_digests(files@)),
            r.content_hash@ == aggregate_digest_of(hashes_of(r.file_paths@)),
            r.content_hash@.len() == 32,
    {
        let ghost orig = files@;
        let mut rest = files;
        let mut digested: Vec<FileWithHash> = Vec::new();
        let mut digests: Vec<Vec<u8>> = Vec::new();
        proof {
            assert(rest@ =~= orig.subrange(0, orig.len() as int));
            assert(present_digests(orig.subrange(0, 0)) =~= Seq::<Seq<u8>>::empty());
            assert(hashes_of(digested@) =~= Seq::<Seq<u8>>::empty());
        }
        while rest.len() > 0
            invariant
                digested@.len() + rest@.len() == orig.len(),
                rest@ == orig.subrange(digested@.len() as int, orig.len() as int),
                forall|k: int| 0 <= k < digested@.len() ==> ({
                    &&& (#[trigger] digested@[k]).path == orig[k].path
                    &&& (match orig[k].data {
                        Some(d) => digested@[k].hash matches Some(h) && h@ == sha256_of(d@),
                        None => digested@[k].hash is None,
                    })
                }),
                crate::order::deep_bytes(digests@)
                    == present_digests(orig.subrange(0, digested@.len() as int)),
                crate::order::deep_bytes(digests@)
                    == hashes_of(digested@),
            decreases rest@.len(),
        {
            let ghost i = digested@.len() as int;
            let ghost pre = orig.subrange(0, i);
            let ghost cur = orig.subrange(0, i + 1);
            proof {
                assert(cur.drop_last() =~= pre);
                assert(cur.last() == orig[i]);
            }
            let f = rest.remove(0);
            proof {
                assert(f == orig[i]);
                assert(rest@ =~= orig.subrange(i + 1, orig.len() as int));
            }
            let ghost digests0 = digests@;
            let ghost digested0 = digested@;
            let fw = FileWithHash::from(f);
            match &fw.hash {
                Some(h) => {
                    digests.push(h.clone());
                },
                None => {},
            }
            digested.push(fw);
            proof {
                assert(digested@.drop_last() =~= digested0);
                assert(crate::order::deep_bytes(digests@) =~= match fw.hash {
                    Some(h) => crate::order::deep_bytes(digests0).push(h@),
                    None => crate::order::deep_bytes(digests0),
                });
            }
        }
        proof {
            assert(orig.subrange(0, digested@.len() as int) =~= orig);
        }
        let content_hash = aggregate_digest(digests);
        RemarkableObj {
            uuid,
            content_hash,
            metadata_path,
            metadata,
            file_paths: digested,
        }
    }
}

/// The metadata-named members of a group's files, in order.
pub open spec fn meta_members(files: Seq<ScannedFile>, id: Seq<char>) -> Seq<ScannedFile>
    decreases files.len(),
{
    if files.len() == 0 {
        Seq::empty()
    } else {
        let rest = meta_members(files.drop_last(), id);
        if is_meta_name(files.last().name@, id) {
            rest.push(files.last())
        } else {
            rest
        }
    }
}

/// The non-metadata members of a group's files, in order: what composes
/// the document's content.
pub open spec fn content_members(files: Seq<ScannedFile>, id: Seq<char>) -> Seq<ScannedFile>
    decreases files.len(),
{
    if files.len() == 0 {
        Seq::empty()
    } else {
        let rest = content_members(files.drop_last(), id);
        if is_meta_name(files.last().name@, id) {
            rest
        } else {
            rest.push(files.last())
        }
    }
}

/// The metadata member that wins when several share one identifier: the
/// lexicographically last path, the later member on a tie.
pub open spec fn pick_meta(metas: Seq<ScannedFile>) -> ScannedFile
    recommends
        metas.len() > 0,
    decreases metas.len(),
{
    if metas.len() <= 1 {
        metas[0]
    } else {
        let best = pick_meta(metas.drop_last());
        if lex_leq_chars(best.path@, metas.last().path@) {
            metas.last()
        } else {
            best
        }
    }
}

/// The document's file set is exactly the given files, each kept under its
/// path, digested exactly when readable, and the aggregate digest covers
/// exactly the readable ones.
pub open spec fn doc_mirrors(doc: RemarkableObj, cs: Seq<ScannedFile>) -> bool {
    &&& doc.file_paths@.len() == cs.len()
    &&& forall|k: int| 0 <= k < cs.len() ==> ({
        &&& (#[trigger] doc.file_paths@[k]).path == cs[k].path
        &&& (match cs[k].data {
            Some(d) => doc.file_paths@[k].hash matches Some(h) && h@ == sha256_of(d@),
            None => doc.file_paths@[k].hash is None,
        })
    })
    &&& doc.content_hash@ == aggregate_digest_of(present_digests(cs))
}

/// Every unreadable non-metadata member of the group is reported.
pub open spec fn unreadables_reported(
    files: Seq<ScannedFile>,
    id: Seq<char>,
    issues: Seq<ScanIssue>,
) -> bool {
    forall|k: int| #![trigger files[k].data] 0 <= k < files.len()
        && !is_meta_name(files[k].name@, id) && files[k].data is None
        ==> crate::report::reports_unreadable(issues, files[k].path@)
}

/// Every file the document keeps without a digest is reported unreadable.
pub open spec fn doc_unreadables_reported(doc: RemarkableObj, issues: Seq<ScanIssue>) -> bool {
    forall|k: int| #![trigger doc.file_paths@[k]] 0 <= k < doc.file_paths@.len()
        && doc.file_paths@[k].hash is None
        ==> crate::report::reports_unreadable(issues, doc.file_paths@[k].path@)
}

/// Turns one document group into a document, or into the issues that
/// explain why the group yields none: a group with no metadata file is
/// reported missing; one whose winning metadata file is unreadable or does
/// not decode is reported malformed; a group with several metadata files is
/// reported as a duplicated identifier, and the lexicographically last
/// metadata path wins. Unreadable sibling files are reported and kept.
#[verifier::rlimit(60)]
pub fn process_group(group: FileGroup) -> (r: (Option<RemarkableObj>, Vec<ScanIssue>))
    ensures
        meta_members(group.files@, group.id@).len() == 0
            ==> r.0 is None && crate::report::reports_missing(r.1@, group.id@),
        meta_members(group.files@, group.id@).len() >= 2
            ==> crate::report::reports_duplicate(r.1@, group.id@),
        meta_members(group.files@, group.id@).len() > 0
            ==> (match pick_meta(meta_members(group.files@, group.id@)).data {
                Some(b) => (match metadata_of(b@) {
                    Some(mv) => r.0 matches Some(doc) && doc.metadata@ == mv
                        && doc.metadata_path == pick_meta(meta_members(group.files@, group.id@)).path,
                    None => r.0 is None && crate::report::reports_malformed(r.1@, group.id@),
                }),
                None => r.0 is None && crate::report::reports_malformed(r.1@, group.id@),
            }),
        r.0 matches Some(doc) ==> ({
            &&& doc.uuid == group.id
            &&& doc.content_hash@ == aggregate_digest_of(hashes_of(doc.file_paths@))
            &&& doc_mirrors(doc, content_members(group.files@, group.id@))
        }),
        r.0 matches Some(doc) ==> doc_unreadables_reported(doc, r.1@),
        unreadables_reported(group.files@, group.id@, r.1@),
{
    let ghost gf = group.files@;
    let ghost gid = group.id@;
    let expected = group.id.clone().concat(".metadata");
    let mut rest = group.files;
    let mut metas: Vec<ScannedFile> = Vec::new();
    let mut content: Vec<ScannedFile> = Vec::new();
    let mut fissues: Vec<ScanIssue> = Vec::new();
    let ghost mut i: int = 0;
    proof {
        assert(rest@ =~= gf.subrange(0, gf.len() as int));
        assert(meta_members(gf.subrange(0, 0), gid) =~= Seq::<ScannedFile>::empty());
        assert(content_members(gf.subrange(0, 0), gid) =~= Seq::<ScannedFile>::empty());
    }
    while rest.len() > 0
        invariant
            0 <= i,
            i + rest@.len() == gf.len(),
            rest@ == gf.subrange(i, gf.len() as int),
            expected@ == gid + ".metadata"@,
            metas@ == meta_members(gf.subrange(0, i), gid),
            content@ == content_members(gf.subrange(0, i), gid),
            unreadables_reported(gf.subrange(0, i), gid, fissues@),
            forall|k: int| #![trigger content@[k].data] 0 <= k < content@.len()
                && content@[k].data is None
                ==> crate::report::reports_unreadable(fissues@, content@[k].path@),
        decreases rest@.len(),
    {
        let ghost pre = gf.subrange(0, i);
        let ghost cur = gf.subrange(0, i + 1);
        proof {
            assert(cur.drop_last() =~= pre);
            assert(cur.last() == gf[i]);
        }
        let f = rest.remove(0);
        proof {
            assert(f == gf[i]);
            assert(rest@ =~= gf.subrange(i + 1, gf.len() as int));
        }
        let ghost fissues0 = fissues@;
        let ghost content0 = content@;
        let is_meta = f.name.eq(&expected);
        if is_meta {
            metas.push(f);
        } else {
            if f.data.is_none() {
                fissues.push(ScanIssue::FileUnreadable { path: f.path.clone() });
            }
            content.push(f);
        }
        proof {
            i = i + 1;
            crate::report::lemma_reports_extend(fissues0, fissues@);
            assert forall|k: int| #![trigger content@[k].data] 0 <= k < content@.len()
                && content@[k].data is None implies
                crate::report::reports_unreadable(fissues@, content@[k].path@) by {
                if k < content0.len() {
                    assert(content@[k] == content0[k]);
                    assert(crate::report::reports_unreadable(fissues0, content0[k].path@));
                } else {
                    assert(content@[k] == f);
                    assert(fissues@[fissues@.len() - 1] matches ScanIssue::FileUnreadable { path }
                        && path@ == f.path@);
                }
            }
            assert forall|k: int| #![trigger cur[k].data] 0 <= k < cur.len()
                && !is_meta_name(cur[k].name@, gid) && cur[k].data is None implies
                crate::report::reports_unreadable(fissues@, cur[k].path@) by {
                if k < pre.len() {
                    assert(cur[k] == pre[k]);
                    assert(crate::report::reports_unreadable(fissues0, pre[k].path@));
                } else {
                    assert(cur[k] == f);
                    assert(fissues@[fissues@.len() - 1] matches ScanIssue::FileUnreadable { path }
                        && path@ == f.path@);
                }
            }
        }
    }
    proof {
        assert(gf.subrange(0, i) =~= gf);
    }
    let ghost ms = meta_members(gf, gid);
    if metas.len() == 0 {
        let ghost fissues0 = fissues@;
        let mut issues = fissues;
        issues.push(ScanIssue::MetadataMissing { uuid: group.id });
        proof {
            crate::report::lemma_reports_extend(fissues0, issues@);
            assert(issues@[issues@.len() - 1] matches ScanIssue::MetadataMissing { uuid }
                && uuid@ == gid);
        }
        return (None, issues);
    }
    if metas.len() >= 2 {
        let ghost fissues0 = fissues@;
        fissues.push(ScanIssue::DuplicateIdentifier { uuid: group.id.clone() });
        proof {
            crate::report::lemma_reports_extend(fissues0, fissues@);
            assert(fissues@[fissues@.len() - 1] matches ScanIssue::DuplicateIdentifier { uuid }
                && uuid@ == gid);
        }
    }
    let mut best: usize = 0;
    let mut k: usize = 1;
    proof {
        assert(ms.subrange(0, 1).len() == 1);
        assert(ms.subrange(0, 1)[0] == ms[0]);
        assert(pick_meta(ms.subrange(0, 1)) == ms[0]);
    }
    while k < metas.len()
        invariant
            metas@ == ms,
            ms.len() > 0,
            best < k,
            1 <= k <= ms.len(),
            metas@[best as int] == pick_meta(ms.subrange(0, k as int)),
        decreases ms.len() - k,
    {
        proof {
            assert(ms.subrange(0, k as int + 1).drop_last() =~= ms.subrange(0, k as int));
            assert(ms.subrange(0, k as int + 1).last() == ms[k as int]);
        }
        if strings_leq(&metas[best].path, &metas[k].path) {
            best = k;
        }
        k = k + 1;
    }
    proof {
        assert(ms.subrange(0, metas@.len() as int) =~= ms);
    }
    let chosen = metas.remove(best);
    proof {
        assert(chosen == pick_meta(ms));
    }
    let decoded = match &chosen.data {
        Some(bytes) => decode_metadata(bytes),
        None => None,
    };
    match decoded {
        Some(m) => {
            let ghost cs = content@;
            let doc = RemarkableObj::new(group.id, chosen.path, m, content);
            proof {
                assert forall|k: int| #![trigger doc.file_paths@[k]]
                    0 <= k < doc.file_paths@.len() && doc.file_paths@[k].hash is None implies
                    crate::report::reports_unreadable(fissues@, doc.file_paths@[k].path@) by {
                    assert(cs[k].data is None);
                    assert(doc.file_paths@[k].path == cs[k].path);
                }
            }
            (Some(doc), fissues)
        },
        None => {
            let ghost fissues0 = fissues@;
            fissues.push(ScanIssue::MetadataMalformed { uuid: group.id });
            proof {
                crate::report::lemma_reports_extend(fissues0, fissues@);
                assert(fissues@[fissues@.len() - 1] matches ScanIssue::MetadataMalformed { uuid }
                    && uuid@ == gid);
            }
            (None, fissues)
        },
    }
}

} // verus!
