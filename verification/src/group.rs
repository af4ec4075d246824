use vstd::prelude::*;
use crate::files::{spec_stem, stem_of, ScannedFile};
use crate::order::{char_key, lemma_lex_antisym, lemma_lex_connected, lemma_lex_refl, lemma_lex_trans, lex_leq_chars, strings_leq};

verus! {

/// One document group: the shared identifier and every scanned file whose
/// name carries that identifier, in the order the files were listed.
pub struct FileGroup {
    pub id: String,
    pub files: Vec<ScannedFile>,
}

/// The files of `files` whose name carries the identifier `id`, kept in
/// their original order.
pub open spec fn files_with_stem(files: Seq<ScannedFile>, id: Seq<char>) -> Seq<ScannedFile>
    decreases files.len(),
{
    if files.len() == 0 {
        Seq::empty()
    } else {
        let rest = files_with_stem(files.drop_last(), id);
        if spec_stem(files.last().name@) == Some(id) {
            rest.push(files.last())
        } else {
            rest
        }
    }
}

/// The paths of the files of `files` whose name carries no identifier, in
/// their original order.
pub open spec fn skipped_paths(files: Seq<ScannedFile>) -> Seq<String>
    decreases files.len(),
{
    if files.len() == 0 {
        Seq::empty()
    } else {
        let rest = skipped_paths(files.drop_last());
        if spec_stem(files.last().name@) is None {
            rest.push(files.last().path)
        } else {
            rest
        }
    }
}

proof fn lemma_char_key_injective()
    ensures
        forall|x: char, y: char| #![trigger char_key()(x), char_key()(y)]
            char_key()(x) == char_key()(y) ==> x == y,
{
}

proof fn lemma_files_with_stem_absent(files: Seq<ScannedFile>, id: Seq<char>)
    requires
        forall|j: int| 0 <= j < files.len() ==> spec_stem(#[trigger] files[j].name@) != Some(id),
    ensures
        files_with_stem(files, id) =~= Seq::<ScannedFile>::empty(),
    decreases files.len(),
{
    if files.len() > 0 {
        assert(files.drop_last() =~= files.subrange(0, files.len() - 1));
        lemma_files_with_stem_absent(files.drop_last(), id);
    }
}

/// Looks an identifier up among those already collected.
fn find_id(ids: &Vec<String>, st: &String) -> (r: Option<usize>)
    ensures
        match r {
            Some(g) => g < ids@.len() && ids@[g as int]@ == st@,
            None => forall|g: int| 0 <= g < ids@.len() ==> ids@[g]@ != st@,
        },
{
    let mut g: usize = 0;
    while g < ids.len()
        invariant
            g <= ids@.len(),
            forall|gg: int| 0 <= gg < g ==> ids@[gg]@ != st@,
        decreases ids@.len() - g,
    {
        if ids[g].eq(st) {
            return Some(g);
        }
        g = g + 1;
    }
    None
}

/// Appends a file to the group already holding its identifier.
fn add_to_group(
    members: &mut Vec<Vec<ScannedFile>>,
    g: usize,
    f: ScannedFile,
    Ghost(ids): Ghost<Seq<String>>,
    Ghost(pre): Ghost<Seq<ScannedFile>>,
)
    requires
        old(members)@.len() == ids.len(),
        g < ids.len(),
        forall|gg: int| 0 <= gg < ids.len()
            ==> (#[trigger] old(members)@[gg])@ == files_with_stem(pre, ids[gg]@),
        spec_stem(f.name@) == Some(ids[g as int]@),
        forall|gg: int| 0 <= gg < ids.len() && gg != g ==> (#[trigger] ids[gg])@ != ids[g as int]@,
    ensures
        final(members)@.len() == ids.len(),
        forall|gg: int| 0 <= gg < ids.len()
            ==> (#[trigger] final(members)@[gg])@ == files_with_stem(pre.push(f), ids[gg]@),
{
    let ghost members0 = members@;
    let mut mg = members.remove(g);
    mg.push(f);
    members.insert(g, mg);
    proof {
        assert(members@ =~= members0.update(g as int, mg));
        let cur = pre.push(f);
        assert(cur.drop_last() =~= pre);
        assert(cur.last() == f);
        assert forall|gg: int| 0 <= gg < ids.len() implies
            (#[trigger] members@[gg])@ == files_with_stem(cur, ids[gg]@) by {
            if gg == g {
                assert(members@[gg]@ =~= members0[gg]@.push(f));
            } else {
                assert(ids[gg]@ != ids[g as int]@);
            }
        }
    }
}

/// Opens a group for an identifier not seen before, keeping the collected
/// identifiers sorted and distinct.
fn insert_group(
    ids: &mut Vec<String>,
    members: &mut Vec<Vec<ScannedFile>>,
    st: String,
    f: ScannedFile,
    Ghost(pre): Ghost<Seq<ScannedFile>>,
)
    requires
        old(ids)@.len() == old(members)@.len(),
        forall|g1: int, g2: int| 0 <= g1 < g2 < old(ids)@.len()
            ==> lex_leq_chars(#[trigger] old(ids)@[g1]@, #[trigger] old(ids)@[g2]@)
                && old(ids)@[g1]@ != old(ids)@[g2]@,
        forall|gg: int| 0 <= gg < old(ids)@.len()
            ==> (#[trigger] old(members)@[gg])@ == files_with_stem(pre, old(ids)@[gg]@),
        spec_stem(f.name@) == Some(st@),
        forall|g: int| 0 <= g < old(ids)@.len() ==> (#[trigger] old(ids)@[g])@ != st@,
        forall|j: int| 0 <= j < pre.len() ==> spec_stem(#[trigger] pre[j].name@) != Some(st@),
    ensures
        final(ids)@.len() == old(ids)@.len() + 1,
        final(ids)@.len() == final(members)@.len(),
        forall|g1: int, g2: int| 0 <= g1 < g2 < final(ids)@.len()
            ==> lex_leq_chars(#[trigger] final(ids)@[g1]@, #[trigger] final(ids)@[g2]@)
                && final(ids)@[g1]@ != final(ids)@[g2]@,
        forall|gg: int| 0 <= gg < final(ids)@.len()
            ==> (#[trigger] final(members)@[gg])@ == files_with_stem(pre.push(f), final(ids)@[gg]@),
        forall|g0: int| 0 <= g0 < old(ids)@.len()
            ==> exists|g: int| 0 <= g < final(ids)@.len() && final(ids)@[g] == #[trigger] old(ids)@[g0],
        exists|g: int| 0 <= g < final(ids)@.len() && (#[trigger] final(ids)@[g])@ == st@,
        forall|g: int| 0 <= g < final(ids)@.len()
            ==> (#[trigger] final(ids)@[g])@ == st@
                || exists|g0: int| 0 <= g0 < old(ids)@.len() && final(ids)@[g] == old(ids)@[g0],
{
    let ghost ids0 = ids@;
    let mut p: usize = 0;
    while p < ids.len() && !strings_leq(&st, &ids[p])
        invariant
            p <= ids@.len(),
            ids@ == ids0,
            forall|q: int| 0 <= q < p ==> !lex_leq_chars(st@, #[trigger] ids@[q]@),
        decreases ids@.len() - p,
    {
        p = p + 1;
    }
    proof {
        lemma_char_key_injective();
        assert forall|q: int| 0 <= q < p implies
            lex_leq_chars(#[trigger] ids0[q]@, st@) && ids0[q]@ != st@ by {
            lemma_lex_connected(st@, ids0[q]@, char_key());
            if ids0[q]@ == st@ {
                lemma_lex_refl(st@, char_key());
            }
        }
    }
    let mut nm: Vec<ScannedFile> = Vec::new();
    proof {
        lemma_files_with_stem_absent(pre, st@);
    }
    nm.push(f);
    let ghost stv = st@;
    ids.insert(p, st);
    members.insert(p, nm);
    proof {
        let idsn = ids@;
        assert(idsn[p as int]@ == stv);
        assert forall|g1: int, g2: int| 0 <= g1 < g2 < idsn.len() implies
            lex_leq_chars(#[trigger] idsn[g1]@, #[trigger] idsn[g2]@) && idsn[g1]@ != idsn[g2]@ by {
            let o1: int = if g1 < p { g1 } else { g1 - 1 };
            let o2: int = if g2 < p { g2 } else { g2 - 1 };
            if g1 == p {
                assert(idsn[g2] == ids0[o2]);
                assert(lex_leq_chars(stv, ids0[p as int]@));
                if o2 > p {
                    lemma_lex_trans(stv, ids0[p as int]@, ids0[o2]@, char_key());
                    if idsn[g2]@ == stv {
                        lemma_lex_refl(stv, char_key());
                        lemma_lex_antisym(ids0[o2]@, stv, char_key());
                    }
                } else {
                    if idsn[g2]@ == stv {
                        lemma_lex_refl(stv, char_key());
                        lemma_lex_antisym(ids0[p as int]@, stv, char_key());
                    }
                }
            } else if g2 == p {
                assert(idsn[g1] == ids0[o1]);
                assert(lex_leq_chars(ids0[o1]@, stv));
            } else {
                assert(idsn[g1] == ids0[o1]);
                assert(idsn[g2] == ids0[o2]);
            }
        }
        let cur = pre.push(f);
        assert(cur.drop_last() =~= pre);
        assert(cur.last() == f);
        assert forall|gg: int| 0 <= gg < idsn.len() implies
            (#[trigger] members@[gg])@ == files_with_stem(cur, idsn[gg]@) by {
            if gg == p {
                assert(members@[gg] == nm);
                assert(nm@ =~= files_with_stem(pre, stv).push(f));
            } else {
                let og: int = if gg < p { gg } else { gg - 1 };
                assert(members@[gg] == old(members)@[og]);
                assert(idsn[gg] == ids0[og]);
                assert(ids0[og]@ != stv);
            }
        }
        assert forall|g0: int| 0 <= g0 < ids0.len() implies
            exists|g: int| 0 <= g < idsn.len() && idsn[g] == #[trigger] ids0[g0] by {
            let g: int = if g0 < p { g0 } else { g0 + 1 };
            assert(idsn[g] == ids0[g0]);
        }
        assert forall|g: int| 0 <= g < idsn.len() implies
            (#[trigger] idsn[g])@ == stv
                || exists|g0: int| 0 <= g0 < ids0.len() && idsn[g] == ids0[g0] by {
            if g != p {
                let og: int = if g < p { g } else { g - 1 };
                assert(idsn[g] == ids0[og]);
            }
        }
    }
}

/// The collected identifiers ascend strictly in the lexicographic order.
pub open spec fn ids_sorted(ids: Seq<String>) -> bool {
    forall|g1: int, g2: int| 0 <= g1 < g2 < ids.len()
        ==> lex_leq_chars(#[trigger] ids[g1]@, #[trigger] ids[g2]@) && ids[g1]@ != ids[g2]@
}

/// Each collected identifier's member list holds exactly the files of `pre`
/// that carry it.
pub open spec fn members_exact(
    ids: Seq<String>,
    members: Seq<Vec<ScannedFile>>,
    pre: Seq<ScannedFile>,
) -> bool {
    &&& ids.len() == members.len()
    &&& forall|g: int| 0 <= g < ids.len()
        ==> (#[trigger] members[g])@ == files_with_stem(pre, ids[g]@)
}

/// Every identifier carried by a file of `pre` was collected.
pub open spec fn ids_complete(ids: Seq<String>, pre: Seq<ScannedFile>) -> bool {
    forall|j: int| #![trigger pre[j].name] 0 <= j < pre.len() && spec_stem(pre[j].name@) is Some
        ==> exists|g: int| 0 <= g < ids.len() && Some((#[trigger] ids[g])@) == spec_stem(pre[j].name@)
}

/// Every collected identifier is carried by some file of `pre`.
pub open spec fn ids_grounded(ids: Seq<String>, pre: Seq<ScannedFile>) -> bool {
    forall|g: int| #![trigger ids[g]] 0 <= g < ids.len()
        ==> exists|j: int| 0 <= j < pre.len()
            && spec_stem(#[trigger] pre[j].name@) == Some(ids[g]@)
}

/// Files one scanned file into the groups collected so far.
#[verifier::rlimit(60)]
fn group_step(
    ids: &mut Vec<String>,
    members: &mut Vec<Vec<ScannedFile>>,
    skipped: &mut Vec<String>,
    f: ScannedFile,
    Ghost(pre): Ghost<Seq<ScannedFile>>,
)
    requires
        ids_sorted(old(ids)@),
        members_exact(old(ids)@, old(members)@, pre),
        ids_complete(old(ids)@, pre),
        ids_grounded(old(ids)@, pre),
        old(skipped)@ == skipped_paths(pre),
    ensures
        ids_sorted(final(ids)@),
        members_exact(final(ids)@, final(members)@, pre.push(f)),
        ids_complete(final(ids)@, pre.push(f)),
        ids_grounded(final(ids)@, pre.push(f)),
        final(skipped)@ == skipped_paths(pre.push(f)),
{
    let ghost ids0 = ids@;
    let ghost cur = pre.push(f);
    proof {
        assert(cur.drop_last() =~= pre);
        assert(cur.last() == f);
        assert forall|j: int| 0 <= j < pre.len() implies #[trigger] cur[j] == pre[j] by {}
    }
    let st_opt = stem_of(&f.name);
    match st_opt {
        None => {
            skipped.push(f.path);
        },
        Some(st) => {
            match find_id(&ids, &st) {
                Some(g) => {
                    proof {
                        assert forall|gg: int| 0 <= gg < ids@.len() && gg != g
                            implies (#[trigger] ids@[gg])@ != ids@[g as int]@ by {
                            if gg < g {
                                assert(lex_leq_chars(ids@[gg]@, ids@[g as int]@)
                                    && ids@[gg]@ != ids@[g as int]@);
                            }
                        }
                    }
                    add_to_group(members, g, f, Ghost(ids@), Ghost(pre));
                    proof {
                        assert(ids_complete(ids@, cur));
                    }
                },
                None => {
                    proof {
                        assert forall|j: int| 0 <= j < pre.len()
                            implies spec_stem(#[trigger] pre[j].name@) != Some(st@) by {
                            if spec_stem(pre[j].name@) == Some(st@) {
                                let g0 = choose|g0: int| 0 <= g0 < ids0.len()
                                    && Some((#[trigger] ids0[g0])@) == spec_stem(pre[j].name@);
                                assert(ids0[g0]@ != st@);
                            }
                        }
                    }
                    insert_group(ids, members, st, f, Ghost(pre));
                    proof {
                        let idsn = ids@;
                        assert forall|j: int| 0 <= j < cur.len()
                            && spec_stem(#[trigger] cur[j].name@) is Some implies
                            exists|g: int| 0 <= g < idsn.len()
                                && Some((#[trigger] idsn[g])@) == spec_stem(cur[j].name@) by {
                            if j < pre.len() {
                                let g0 = choose|g0: int| 0 <= g0 < ids0.len()
                                    && Some((#[trigger] ids0[g0])@) == spec_stem(pre[j].name@);
                                let g = choose|g: int| 0 <= g < idsn.len()
                                    && idsn[g] == #[trigger] ids0[g0];
                                assert(Some(idsn[g]@) == spec_stem(cur[j].name@));
                            } else {
                                let g = choose|g: int| 0 <= g < idsn.len()
                                    && (#[trigger] idsn[g])@ == st@;
                                assert(Some(idsn[g]@) == spec_stem(cur[j].name@));
                            }
                        }
                        assert forall|g: int| 0 <= g < idsn.len() implies
                            exists|j: int| 0 <= j < cur.len()
                                && spec_stem(#[trigger] cur[j].name@) == Some((#[trigger] idsn[g])@) by {
                            if idsn[g]@ == st@ {
                                assert(spec_stem(cur[pre.len() as int].name@) == Some(idsn[g]@));
                            } else {
                                let g0 = choose|g0: int| 0 <= g0 < ids0.len() && idsn[g] == ids0[g0];
                                let j = choose|j: int| 0 <= j < pre.len()
                                    && spec_stem(#[trigger] pre[j].name@) == Some(ids0[g0]@);
                                assert(spec_stem(cur[j].name@) == Some(idsn[g]@));
                            }
                        }
                    }
                },
            }
        },
    }
}


/// Every file whose name carries an identifier lands in a returned group
/// carrying that identifier.
pub open spec fn groups_complete(files: Seq<ScannedFile>, groups: Seq<FileGroup>) -> bool {
    forall|j: int| #![trigger files[j].name] 0 <= j < files.len() && spec_stem(files[j].name@) is Some
        ==> exists|g: int| 0 <= g < groups.len()
            && Some((#[trigger] groups[g]).id@) == spec_stem(files[j].name@)
}

/// Some file's name carries the identifier.
pub open spec fn some_file_has_stem(files: Seq<ScannedFile>, id: Seq<char>) -> bool {
    exists|j: int| 0 <= j < files.len() && spec_stem(#[trigger] files[j].name@) == Some(id)
}

/// Every returned group's identifier is carried by some file.
pub open spec fn groups_grounded(files: Seq<ScannedFile>, groups: Seq<FileGroup>) -> bool {
    forall|g: int| #![trigger groups[g].id] 0 <= g < groups.len()
        ==> some_file_has_stem(files, groups[g].id@)
}

proof fn lemma_groups_assembled(
    groups: Seq<FileGroup>,
    fids: Seq<String>,
    fmembers: Seq<Vec<ScannedFile>>,
    orig: Seq<ScannedFile>,
)
    requires
        groups.len() == fids.len(),
        fids.len() == fmembers.len(),
        forall|k: int| 0 <= k < groups.len()
            ==> (#[trigger] groups[k]).id == fids[k] && groups[k].files == fmembers[k],
        ids_sorted(fids),
        members_exact(fids, fmembers, orig),
        ids_complete(fids, orig),
        ids_grounded(fids, orig),
    ensures
        forall|g: int| 0 <= g < groups.len()
            ==> (#[trigger] groups[g]).files@ == files_with_stem(orig, groups[g].id@),
        forall|g1: int, g2: int| 0 <= g1 < g2 < groups.len()
            ==> lex_leq_chars(#[trigger] groups[g1].id@, #[trigger] groups[g2].id@)
                && groups[g1].id@ != groups[g2].id@,
        groups_complete(orig, groups),
        groups_grounded(orig, groups),
{
    assert forall|j: int| #![trigger orig[j].name]
        0 <= j < orig.len() && spec_stem(orig[j].name@) is Some implies
        exists|g: int| 0 <= g < groups.len()
            && Some((#[trigger] groups[g]).id@) == spec_stem(orig[j].name@) by {
        let g0 = choose|g0: int| 0 <= g0 < fids.len()
            && Some((#[trigger] fids[g0])@) == spec_stem(orig[j].name@);
        assert(groups[g0].id == fids[g0]);
        assert(Some(groups[g0].id@) == spec_stem(orig[j].name@));
    }
    assert forall|g: int| #![trigger groups[g].id] 0 <= g < groups.len() implies
        some_file_has_stem(orig, groups[g].id@) by {
        assert(groups[g].id == fids[g]);
        let j = choose|j: int| 0 <= j < orig.len()
            && spec_stem(#[trigger] orig[j].name@) == Some((fids[g])@);
        assert(0 <= j < orig.len());
        assert(spec_stem(orig[j].name@) == Some(groups[g].id@));
    }
    assert forall|g: int| 0 <= g < groups.len() implies
        (#[trigger] groups[g]).files@ == files_with_stem(orig, groups[g].id@) by {
        assert(groups[g].id == fids[g]);
        assert(fmembers[g]@ == files_with_stem(orig, fids[g]@));
    }
    assert forall|g1: int, g2: int| 0 <= g1 < g2 < groups.len() implies
        lex_leq_chars(#[trigger] groups[g1].id@, #[trigger] groups[g2].id@)
            && groups[g1].id@ != groups[g2].id@ by {
        assert(lex_leq_chars(fids[g1]@, fids[g2]@) && fids[g1]@ != fids[g2]@);
    }
}

/// Partitions scanned files into document groups keyed by the identifier in
/// the file name. Groups come back sorted by identifier, so the output order
/// is reproducible whatever order the filesystem listed the files in. Files
/// whose name carries no identifier are skipped and their paths reported.
#[verifier::rlimit(60)]
pub fn group_files(files: Vec<ScannedFile>) -> (r: (Vec<FileGroup>, Vec<String>))
    ensures
        forall|g: int| 0 <= g < r.0@.len()
            ==> (#[trigger] r.0@[g]).files@ == files_with_stem(files@, r.0@[g].id@),
        forall|g1: int, g2: int| 0 <= g1 < g2 < r.0@.len()
            ==> lex_leq_chars(#[trigger] r.0@[g1].id@, #[trigger] r.0@[g2].id@)
                && r.0@[g1].id@ != r.0@[g2].id@,
        groups_complete(files@, r.0@),
        groups_grounded(files@, r.0@),
        files@.len() == 0 ==> r.0@.len() == 0 && r.1@.len() == 0,
        r.1@ == skipped_paths(files@),
{
    let ghost orig = files@;
    let mut rest = files;
    let mut ids: Vec<String> = Vec::new();
    let mut members: Vec<Vec<ScannedFile>> = Vec::new();
    let mut skipped: Vec<String> = Vec::new();
    let ghost mut i: int = 0;
    proof {
        assert(rest@ =~= orig.subrange(0, orig.len() as int));
        assert(skipped_paths(orig.subrange(0, 0)) =~= Seq::<String>::empty());
    }
    while rest.len() > 0
        invariant
            orig == files@,
            0 <= i,
            i + rest@.len() == orig.len(),
            rest@ == orig.subrange(i, orig.len() as int),
            ids_sorted(ids@),
            members_exact(ids@, members@, orig.subrange(0, i)),
            ids_complete(ids@, orig.subrange(0, i)),
            ids_grounded(ids@, orig.subrange(0, i)),
            skipped@ == skipped_paths(orig.subrange(0, i)),
        decreases rest@.len(),
    {
        let ghost pre = orig.subrange(0, i);
        let f = rest.remove(0);
        proof {
            assert(f == orig[i]);
            assert(rest@ =~= orig.subrange(i + 1, orig.len() as int));
            assert(pre.push(f) =~= orig.subrange(0, i + 1));
        }
        group_step(&mut ids, &mut members, &mut skipped, f, Ghost(pre));
        proof {
            i = i + 1;
        }
    }
    proof {
        assert(orig.subrange(0, i) =~= orig);
        assert(orig.subrange(0, i) == orig);
    }
    let ghost fids = ids@;
    let ghost fmembers = members@;
    let mut groups: Vec<FileGroup> = Vec::new();
    while ids.len() > 0
        invariant
            orig == files@,
            ids_sorted(fids),
            members_exact(fids, fmembers, orig),
            ids_complete(fids, orig),
            ids_grounded(fids, orig),
            skipped@ == skipped_paths(orig),
            ids@.len() == members@.len(),
            groups@.len() + ids@.len() == fids.len(),
            fids.len() == fmembers.len(),
            ids@ == fids.skip(groups@.len() as int),
            members@ == fmembers.skip(groups@.len() as int),
            forall|k: int| 0 <= k < groups@.len()
                ==> (#[trigger] groups@[k]).id == fids[k] && groups@[k].files == fmembers[k],
        decreases ids@.len(),
    {
        let ghost n = groups@.len() as int;
        let id = ids.remove(0);
        let fs = members.remove(0);
        proof {
            assert(id == fids.skip(n)[0]);
            assert(fs == fmembers.skip(n)[0]);
            assert(ids@ =~= fids.skip(n + 1));
            assert(members@ =~= fmembers.skip(n + 1));
        }
        groups.push(FileGroup { id, files: fs });
    }
    proof {
        lemma_groups_assembled(groups@, fids, fmembers, orig);
        assert(groups_complete(files@, groups@));
        assert(groups_grounded(files@, groups@));
        if orig.len() == 0 {
            if groups@.len() > 0 {
                assert(some_file_has_stem(orig, groups@[0].id@));
                assert(false);
            }
            assert(skipped@ =~= Seq::<String>::empty());
        }
    }
    (groups, skipped)
}

} // verus!
