//! The copy pass. The caller lists each instance's media subdirectory and
//! the destination directory, and hands the listings in as plain byte-string
//! names. The pass decides, file by file in listing order, whether the file
//! is to be copied (its name is not yet present at the destination) or
//! skipped (a same-named entry is already there), keeps the tally of both,
//! and returns the planned copies for the caller to carry out.

use vstd::prelude::*;

verus! {

/// One instance directory as observed on disk: whether its fixed media
/// subdirectory exists, and the names of the regular files directly inside
/// it, in listing order.
pub struct InstanceListing {
    pub media_present: bool,
    pub files: Vec<Vec<u8>>,
}

/// Counts of files copied and files skipped over one pass.
#[derive(Clone, Copy, Debug, PartialEq, Eq)]
pub struct CopyTally {
    pub copied: usize,
    pub skipped: usize,
}

/// One file the pass decided to copy, identified by its instance's index in
/// the listing and the file's index within that instance's media listing.
#[derive(Clone, Copy, Debug, PartialEq, Eq)]
pub struct CopyAction {
    pub instance: usize,
    pub file: usize,
}

/// Everything a finished pass yields: the copies to carry out in order, the
/// tally, and the destination's name set as it stands once those copies are
/// done.
pub struct PassResult {
    pub actions: Vec<CopyAction>,
    pub tally: CopyTally,
    pub dest_names: Vec<Vec<u8>>,
}

/// The mathematical outcome of a (partial) pass: the copies planned so far
/// as (instance index, file index) pairs, the two counters, and the set of
/// names present at the destination.
#[verifier::ext_equal]
pub ghost struct PlanModel {
    pub actions: Seq<(int, int)>,
    pub copied: nat,
    pub skipped: nat,
    pub dest: Set<Seq<u8>>,
}

/// The views of a sequence of byte-string names.
pub open spec fn byte_views(files: Seq<Vec<u8>>) -> Seq<Seq<u8>> {
    files.map_values(|f: Vec<u8>| f@)
}

/// The set of names held by a listing of the destination directory.
pub open spec fn names_set(names: Seq<Vec<u8>>) -> Set<Seq<u8>>
    decreases names.len(),
{
    if names.len() == 0 {
        Set::empty()
    } else {
        names_set(names.drop_last()).insert(names.last()@)
    }
}

/// A pass that has not examined any file yet.
pub open spec fn initial_model(dest: Set<Seq<u8>>) -> PlanModel {
    PlanModel { actions: Seq::empty(), copied: 0, skipped: 0, dest }
}

/// One file examined: a name already present at the destination is skipped
/// and left untouched; any other name is planned for copying and from then
/// on counts as present.
pub open spec fn file_step(m: PlanModel, i: int, j: int, name: Seq<u8>) -> PlanModel {
    if m.dest.contains(name) {
        PlanModel { actions: m.actions, copied: m.copied, skipped: m.skipped + 1, dest: m.dest }
    } else {
        PlanModel {
            actions: m.actions.push((i, j)),
            copied: m.copied + 1,
            skipped: m.skipped,
            dest: m.dest.insert(name),
        }
    }
}

/// The files of instance `i`, examined in listing order starting from `m`.
pub open spec fn files_model(m: PlanModel, i: int, files: Seq<Seq<u8>>) -> PlanModel
    decreases files.len(),
{
    if files.len() == 0 {
        m
    } else {
        file_step(files_model(m, i, files.drop_last()), i, files.len() - 1, files.last())
    }
}

/// The whole pass over the instance listings: instances in order, each
/// contributing its media files only where the media subdirectory exists.
pub open spec fn plan_model(instances: Seq<InstanceListing>, dest: Set<Seq<u8>>) -> PlanModel
    decreases instances.len(),
{
    if instances.len() == 0 {
        initial_model(dest)
    } else {
        let m = plan_model(instances.drop_last(), dest);
        let inst = instances.last();
        if inst.media_present {
            files_model(m, instances.len() - 1, byte_views(inst.files@))
        } else {
            m
        }
    }
}

/// The names of every file the pass examines, in examination order.
pub open spec fn eligible(instances: Seq<InstanceListing>) -> Seq<Seq<u8>>
    decreases instances.len(),
{
    if instances.len() == 0 {
        Seq::empty()
    } else {
        eligible(instances.drop_last()) + (if instances.last().media_present {
            byte_views(instances.last().files@)
        } else {
            Seq::empty()
        })
    }
}

/// How many files the pass examines in all.
pub open spec fn eligible_count(instances: Seq<InstanceListing>) -> nat {
    eligible(instances).len()
}

/// The view of a planned-copy list as (instance index, file index) pairs.
pub open spec fn action_views(actions: Seq<CopyAction>) -> Seq<(int, int)> {
    actions.map_values(|a: CopyAction| (a.instance as int, a.file as int))
}

/// Byte-string equality, decided element by element.
pub fn bytes_eq(a: &Vec<u8>, b: &Vec<u8>) -> (r: bool)
    ensures
        r == (a@ == b@),
{
    if a.len() != b.len() {
        return false;
    }
    let mut k: usize = 0;
    while k < a.len()
        invariant
            k <= a@.len(),
            a@.len() == b@.len(),
            forall|t: int| 0 <= t < k ==> a@[t] == b@[t],
        decreases a@.len() - k,
    {
        if a[k] != b[k] {
            return false;
        }
        k += 1;
    }
    proof {
        assert(a@ =~= b@);
    }
    true
}

/// An owned copy of a byte-string name.
fn clone_bytes(a: &Vec<u8>) -> (r: Vec<u8>)
    ensures
        r@ == a@,
{
    vstd::slice::slice_to_vec(a.as_slice())
}

/// Examining one more file of instance `i` applies one `file_step`.
proof fn lemma_files_snoc(m: PlanModel, i: int, fv: Seq<Seq<u8>>, j: int)
    requires
        0 <= j < fv.len(),
    ensures
        files_model(m, i, fv.take(j + 1)) == file_step(files_model(m, i, fv.take(j)), i, j, fv[j]),
{
    let t = fv.take(j + 1);
    assert(t.drop_last() =~= fv.take(j));
    assert(t.last() == fv[j]);
}

/// Taking one more instance extends the examined names by that instance's
/// media files, or by nothing where the media subdirectory is absent.
proof fn lemma_eligible_snoc(instances: Seq<InstanceListing>, i: int)
    requires
        0 <= i < instances.len(),
    ensures
        eligible(instances.take(i + 1)) == eligible(instances.take(i))
            + (if instances[i].media_present {
                byte_views(instances[i].files@)
            } else {
                Seq::<Seq<u8>>::empty()
            }),
{
    let t = instances.take(i + 1);
    assert(t.drop_last() =~= instances.take(i));
    assert(t.last() == instances[i]);
}

/// Taking one more instance extends the pass by that instance's files, or
/// not at all where the media subdirectory is absent.
proof fn lemma_plan_snoc(instances: Seq<InstanceListing>, dest: Set<Seq<u8>>, i: int)
    requires
        0 <= i < instances.len(),
    ensures
        plan_model(instances.take(i + 1), dest) == (if instances[i].media_present {
            files_model(plan_model(instances.take(i), dest), i, byte_views(instances[i].files@))
        } else {
            plan_model(instances.take(i), dest)
        }),
{
    let t = instances.take(i + 1);
    assert(t.drop_last() =~= instances.take(i));
    assert(t.last() == instances[i]);
}

/// Every prefix of the listings examines at most as many files as the whole.
proof fn lemma_eligible_count_monotone(instances: Seq<InstanceListing>, i: int)
    requires
        0 <= i <= instances.len(),
    ensures
        eligible_count(instances.take(i)) <= eligible_count(instances),
    decreases instances.len() - i,
{
    if i == instances.len() {
        assert(instances.take(i) =~= instances);
    } else {
        lemma_eligible_snoc(instances, i);
        lemma_eligible_count_monotone(instances, i + 1);
    }
}

/// Whether a name is already present in a destination listing.
pub fn dest_contains(names: &Vec<Vec<u8>>, name: &Vec<u8>) -> (r: bool)
    ensures
        r == names_set(names@).contains(name@),
{
    let mut k: usize = 0;
    let mut found = false;
    while k < names.len()
        invariant
            k <= names@.len(),
            found == names_set(names@.take(k as int)).contains(name@),
        decreases names@.len() - k,
    {
        let hit = bytes_eq(&names[k], name);
        proof {
            let taken = names@.take(k as int + 1);
            assert(taken.drop_last() =~= names@.take(k as int));
            assert(taken.last() == names@[k as int]);
        }
        found = found || hit;
        k += 1;
    }
    proof {
        assert(names@.take(names@.len() as int) =~= names@);
    }
    found
}

/// Each file examined counts exactly once, as copied or as skipped.
proof fn lemma_files_model_counts(m: PlanModel, i: int, files: Seq<Seq<u8>>)
    ensures
        files_model(m, i, files).copied + files_model(m, i, files).skipped == m.copied + m.skipped
            + files.len(),
    decreases files.len(),
{
    if files.len() == 0 {
    } else {
        lemma_files_model_counts(m, i, files.drop_last());
    }
}

/// The tally is complete: copied plus skipped equals the number of files
/// the pass examined.
pub proof fn lemma_tally_complete(instances: Seq<InstanceListing>, dest: Set<Seq<u8>>)
    ensures
        plan_model(instances, dest).copied + plan_model(instances, dest).skipped
            == eligible_count(instances),
    decreases instances.len(),
{
    if instances.len() == 0 {
    } else {
        lemma_tally_complete(instances.drop_last(), dest);
        if instances.last().media_present {
            lemma_files_model_counts(
                plan_model(instances.drop_last(), dest),
                instances.len() - 1,
                byte_views(instances.last().files@),
            );
        } else {
            assert(eligible(instances) =~= eligible(instances.drop_last()));
        }
    }
}

/// A name occurs in a non-empty sequence exactly when it occurs before the
/// last position or at it.
proof fn lemma_contains_snoc(s: Seq<Seq<u8>>, n: Seq<u8>)
    requires
        s.len() > 0,
    ensures
        s.contains(n) <==> s.drop_last().contains(n) || s.last() == n,
{
    if s.contains(n) {
        let k = choose|k: int| 0 <= k < s.len() && s[k] == n;
        if k < s.len() - 1 {
            assert(s.drop_last()[k] == n);
        }
    }
    if s.drop_last().contains(n) {
        let k = choose|k: int| 0 <= k < s.drop_last().len() && s.drop_last()[k] == n;
        assert(s[k] == n);
    }
    if s.last() == n {
        assert(s[s.len() - 1] == n);
    }
}

/// A name occurs in a concatenation exactly when it occurs in either part.
proof fn lemma_contains_concat(a: Seq<Seq<u8>>, b: Seq<Seq<u8>>, n: Seq<u8>)
    ensures
        (a + b).contains(n) <==> a.contains(n) || b.contains(n),
{
    if (a + b).contains(n) {
        let k = choose|k: int| 0 <= k < (a + b).len() && (a + b)[k] == n;
        if k < a.len() {
            assert(a[k] == n);
        } else {
            assert(b[k - a.len()] == n);
        }
    }
    if a.contains(n) {
        let k = choose|k: int| 0 <= k < a.len() && a[k] == n;
        assert((a + b)[k] == n);
    }
    if b.contains(n) {
        let k = choose|k: int| 0 <= k < b.len() && b[k] == n;
        assert((a + b)[k + a.len()] == n);
    }
}

/// After a run of files, a name is present at the destination exactly when
/// it was present before or is one of the examined names.
proof fn lemma_files_model_dest(m: PlanModel, i: int, files: Seq<Seq<u8>>)
    ensures
        forall|n: Seq<u8>|
            #[trigger] files_model(m, i, files).dest.contains(n) <==> m.dest.contains(n)
                || files.contains(n),
    decreases files.len(),
{
    if files.len() == 0 {
    } else {
        lemma_files_model_dest(m, i, files.drop_last());
        assert forall|n: Seq<u8>|
            #[trigger] files_model(m, i, files).dest.contains(n) <==> m.dest.contains(n)
                || files.contains(n) by {
            lemma_contains_snoc(files, n);
            let prev = files_model(m, i, files.drop_last());
            assert(prev.dest.contains(n) <==> m.dest.contains(n) || files.drop_last().contains(n));
        }
    }
}

/// After the whole pass, a name is present at the destination exactly when
/// it was present before or names one of the examined files.
pub proof fn lemma_destination_after_pass(instances: Seq<InstanceListing>, dest: Set<Seq<u8>>)
    ensures
        forall|n: Seq<u8>|
            #[trigger] plan_model(instances, dest).dest.contains(n) <==> dest.contains(n)
                || eligible(instances).contains(n),
    decreases instances.len(),
{
    if instances.len() == 0 {
    } else {
        lemma_destination_after_pass(instances.drop_last(), dest);
        let m = plan_model(instances.drop_last(), dest);
        let ghost tail = if instances.last().media_present {
            byte_views(instances.last().files@)
        } else {
            Seq::<Seq<u8>>::empty()
        };
        if instances.last().media_present {
            lemma_files_model_dest(m, instances.len() - 1, tail);
        }
        assert forall|n: Seq<u8>|
            #[trigger] plan_model(instances, dest).dest.contains(n) <==> dest.contains(n)
                || eligible(instances).contains(n) by {
            lemma_contains_concat(eligible(instances.drop_last()), tail, n);
        }
    }
}

/// A run of files whose names are all present already plans nothing: every
/// file is skipped and the destination stays as it is.
proof fn lemma_files_model_all_present(m: PlanModel, i: int, files: Seq<Seq<u8>>)
    requires
        forall|k: int| 0 <= k < files.len() ==> m.dest.contains(#[trigger] files[k]),
    ensures
        files_model(m, i, files) == (PlanModel {
            actions: m.actions,
            copied: m.copied,
            skipped: m.skipped + files.len(),
            dest: m.dest,
        }),
    decreases files.len(),
{
    if files.len() == 0 {
    } else {
        lemma_files_model_all_present(m, i, files.drop_last());
        assert(files.last() == files[files.len() - 1]);
    }
}

/// A pass whose examined names are all present already plans nothing: it
/// skips every file and leaves the destination as it is.
proof fn lemma_plan_all_present(instances: Seq<InstanceListing>, dest: Set<Seq<u8>>)
    requires
        forall|n: Seq<u8>| #[trigger] eligible(instances).contains(n) ==> dest.contains(n),
    ensures
        plan_model(instances, dest) == (PlanModel {
            actions: Seq::empty(),
            copied: 0,
            skipped: eligible_count(instances),
            dest,
        }),
    decreases instances.len(),
{
    if instances.len() == 0 {
    } else {
        let ghost tail = if instances.last().media_present {
            byte_views(instances.last().files@)
        } else {
            Seq::<Seq<u8>>::empty()
        };
        assert forall|n: Seq<u8>| #[trigger] eligible(instances.drop_last()).contains(n)
            implies dest.contains(n) by {
            lemma_contains_concat(eligible(instances.drop_last()), tail, n);
        }
        lemma_plan_all_present(instances.drop_last(), dest);
        let m = plan_model(instances.drop_last(), dest);
        if instances.last().media_present {
            assert forall|k: int| 0 <= k < tail.len() implies m.dest.contains(
                #[trigger] tail[k],
            ) by {
                assert(tail.contains(tail[k]));
                lemma_contains_concat(eligible(instances.drop_last()), tail, tail[k]);
            }
            lemma_files_model_all_present(m, instances.len() - 1, tail);
        } else {
            assert(eligible(instances) =~= eligible(instances.drop_last()));
        }
    }
}

/// Running the pass a second time, against the same listings and the
/// destination as the first pass left it, copies nothing: every examined
/// name is present by then, so every file is skipped and the destination is
/// unchanged.
pub proof fn lemma_second_pass_copies_nothing(instances: Seq<InstanceListing>, dest: Set<Seq<u8>>)
    ensures
        ({
            let first = plan_model(instances, dest);
            let second = plan_model(instances, first.dest);
            &&& second.copied == 0
            &&& second.actions == Seq::<(int, int)>::empty()
            &&& second.skipped == first.copied + first.skipped
            &&& second.dest == first.dest
        }),
{
    let first = plan_model(instances, dest);
    lemma_destination_after_pass(instances, dest);
    lemma_plan_all_present(instances, first.dest);
    lemma_tally_complete(instances, dest);
}

/// After a first pass that skipped nothing, a second pass against the same
/// listings skips exactly as many files as the first pass copied, and
/// copies none.
pub proof fn lemma_second_pass_skips_first_copies(
    instances: Seq<InstanceListing>,
    dest: Set<Seq<u8>>,
)
    requires
        plan_model(instances, dest).skipped == 0,
    ensures
        ({
            let first = plan_model(instances, dest);
            let second = plan_model(instances, first.dest);
            &&& second.copied == 0
            &&& second.skipped == first.copied
        }),
{
    lemma_second_pass_copies_nothing(instances, dest);
}

/// Two runs over the same files whose starting counters and destination
/// agree also agree afterwards, whatever instance index each records.
proof fn lemma_files_model_congruent(
    m1: PlanModel,
    i1: int,
    m2: PlanModel,
    i2: int,
    files: Seq<Seq<u8>>,
)
    requires
        m1.copied == m2.copied,
        m1.skipped == m2.skipped,
        m1.dest == m2.dest,
    ensures
        ({
            let r1 = files_model(m1, i1, files);
            let r2 = files_model(m2, i2, files);
            &&& r1.copied == r2.copied
            &&& r1.skipped == r2.skipped
            &&& r1.dest == r2.dest
        }),
    decreases files.len(),
{
    if files.len() == 0 {
    } else {
        lemma_files_model_congruent(m1, i1, m2, i2, files.drop_last());
    }
}

/// An instance without a media subdirectory contributes nothing: wherever
/// it stands among the listings, the tallies and the final destination are
/// those of the pass without it.
pub proof fn lemma_no_media_contributes_nothing(
    prefix: Seq<InstanceListing>,
    inst: InstanceListing,
    suffix: Seq<InstanceListing>,
    dest: Set<Seq<u8>>,
)
    requires
        !inst.media_present,
    ensures
        ({
            let with_inst = plan_model(prefix.push(inst) + suffix, dest);
            let without = plan_model(prefix + suffix, dest);
            &&& with_inst.copied == without.copied
            &&& with_inst.skipped == without.skipped
            &&& with_inst.dest == without.dest
        }),
    decreases suffix.len(),
{
    if suffix.len() == 0 {
        assert(prefix.push(inst) + suffix =~= prefix.push(inst));
        assert(prefix + suffix =~= prefix);
        assert((prefix.push(inst)).drop_last() =~= prefix);
        assert((prefix.push(inst)).last() == inst);
    } else {
        let s2 = suffix.drop_last();
        lemma_no_media_contributes_nothing(prefix, inst, s2, dest);
        let a = prefix.push(inst) + suffix;
        let b = prefix + suffix;
        assert(a.drop_last() =~= prefix.push(inst) + s2);
        assert(b.drop_last() =~= prefix + s2);
        assert(a.last() == suffix.last());
        assert(b.last() == suffix.last());
        if suffix.last().media_present {
            lemma_files_model_congruent(
                plan_model(prefix.push(inst) + s2, dest),
                a.len() - 1,
                plan_model(prefix + s2, dest),
                b.len() - 1,
                byte_views(suffix.last().files@),
            );
        }
    }
}

/// A run of files appends to the planned copies: what was planned before
/// stays in place, and every new entry names instance `i` and one of the
/// files of this run.
proof fn lemma_files_actions_extend(m: PlanModel, i: int, files: Seq<Seq<u8>>)
    ensures
        ({
            let r = files_model(m, i, files);
            &&& r.actions.len() >= m.actions.len()
            &&& forall|k: int| 0 <= k < m.actions.len() ==> #[trigger] r.actions[k] == m.actions[k]
            &&& forall|k: int|
                m.actions.len() <= k < r.actions.len() ==> (#[trigger] r.actions[k]).0 == i && 0
                    <= r.actions[k].1 < files.len()
        }),
    decreases files.len(),
{
    if files.len() == 0 {
    } else {
        lemma_files_actions_extend(m, i, files.drop_last());
    }
}

/// Every planned copy points at a real file: the instance index is in
/// range, that instance's media subdirectory exists, and the file index is
/// in range of its media listing.
pub proof fn lemma_actions_in_bounds(instances: Seq<InstanceListing>, dest: Set<Seq<u8>>)
    ensures
        forall|k: int|
            0 <= k < plan_model(instances, dest).actions.len() ==> {
                let a = #[trigger] plan_model(instances, dest).actions[k];
                &&& 0 <= a.0 < instances.len()
                &&& instances[a.0].media_present
                &&& 0 <= a.1 < instances[a.0].files.len()
            },
    decreases instances.len(),
{
    if instances.len() == 0 {
    } else {
        lemma_actions_in_bounds(instances.drop_last(), dest);
        let m = plan_model(instances.drop_last(), dest);
        if instances.last().media_present {
            lemma_files_actions_extend(m, instances.len() - 1, byte_views(instances.last().files@));
        }
        assert forall|k: int| 0 <= k < plan_model(instances, dest).actions.len() implies {
            let a = #[trigger] plan_model(instances, dest).actions[k];
            &&& 0 <= a.0 < instances.len()
            &&& instances[a.0].media_present
            &&& 0 <= a.1 < instances[a.0].files.len()
        } by {
            if k < m.actions.len() {
                assert(m.actions[k] == plan_model(instances, dest).actions[k]);
                assert(instances.drop_last()[m.actions[k].0] == instances[m.actions[k].0]);
            }
        }
    }
}

/// The copy pass. Walks the instance listings in order; for each instance
/// whose media subdirectory exists, walks its files in order, skipping every
/// name already present at the destination and planning a copy for every
/// other name, which from then on counts as present. Returns the planned
/// copies, the tally, and the destination name set as it stands after the
/// planned copies are carried out.
pub fn copy_screenshots(instances: &Vec<InstanceListing>, dest_names: Vec<Vec<u8>>) -> (r:
    PassResult)
    requires
        eligible_count(instances@) <= usize::MAX,
    ensures
        ({
            let m = plan_model(instances@, names_set(dest_names@));
            &&& action_views(r.actions@) == m.actions
            &&& r.tally.copied == m.copied
            &&& r.tally.skipped == m.skipped
            &&& names_set(r.dest_names@) == m.dest
        }),
        forall|k: int|
            0 <= k < r.actions@.len() ==> {
                let a = #[trigger] r.actions@[k];
                &&& a.instance < instances@.len()
                &&& instances@[a.instance as int].media_present
                &&& a.file < instances@[a.instance as int].files.len()
            },
{
    let ghost dest0 = names_set(dest_names@);
    let mut actions: Vec<CopyAction> = Vec::new();
    let mut copied: usize = 0;
    let mut skipped: usize = 0;
    let mut dest: Vec<Vec<u8>> = dest_names;
    let mut i: usize = 0;
    while i < instances.len()
        invariant
            i <= instances@.len(),
            eligible_count(instances@) <= usize::MAX,
            copied + skipped == eligible_count(instances@.take(i as int)),
            ({
                let m = plan_model(instances@.take(i as int), dest0);
                &&& action_views(actions@) == m.actions
                &&& copied == m.copied
                &&& skipped == m.skipped
                &&& names_set(dest@) == m.dest
            }),
        decreases instances@.len() - i,
    {
        proof {
            lemma_eligible_snoc(instances@, i as int);
            lemma_plan_snoc(instances@, dest0, i as int);
            lemma_eligible_count_monotone(instances@, i as int + 1);
            assert(eligible(instances@.take(i as int)) + Seq::<Seq<u8>>::empty() =~= eligible(
                instances@.take(i as int),
            ));
        }
        if instances[i].media_present {
            let ghost m_i = plan_model(instances@.take(i as int), dest0);
            let ghost fv = byte_views(instances@[i as int].files@);
            let mut j: usize = 0;
            while j < instances[i].files.len()
                invariant
                    i < instances@.len(),
                    instances@[i as int].media_present,
                    j <= fv.len(),
                    fv == byte_views(instances@[i as int].files@),
                    m_i == plan_model(instances@.take(i as int), dest0),
                    copied + skipped == eligible_count(instances@.take(i as int)) + j,
                    eligible_count(instances@.take(i as int + 1)) == eligible_count(
                        instances@.take(i as int),
                    ) + fv.len(),
                    eligible_count(instances@.take(i as int + 1)) <= usize::MAX,
                    ({
                        let m = files_model(m_i, i as int, fv.take(j as int));
                        &&& action_views(actions@) == m.actions
                        &&& copied == m.copied
                        &&& skipped == m.skipped
                        &&& names_set(dest@) == m.dest
                    }),
                decreases fv.len() - j,
            {
                let present = dest_contains(&dest, &instances[i].files[j]);
                proof {
                    lemma_files_snoc(m_i, i as int, fv, j as int);
                }
                if !present {
                    let name_copy = clone_bytes(&instances[i].files[j]);
                    let ghost prev_dest = dest@;
                    let ghost prev_actions = actions@;
                    dest.push(name_copy);
                    actions.push(CopyAction { instance: i, file: j });
                    proof {
                        assert(dest@.drop_last() =~= prev_dest);
                        assert(action_views(actions@) =~= action_views(prev_actions).push(
                            (i as int, j as int),
                        ));
                    }
                    copied = copied + 1;
                } else {
                    skipped = skipped + 1;
                }
                j += 1;
            }
            proof {
                assert(fv.take(fv.len() as int) =~= fv);
            }
        }
        i += 1;
    }
    proof {
        assert(instances@.take(instances@.len() as int) =~= instances@);
        lemma_actions_in_bounds(instances@, dest0);
        assert(forall|k: int|
            0 <= k < actions@.len() ==> action_views(actions@)[k] == (
            (#[trigger] actions@[k]).instance as int,
            actions@[k].file as int,
        ));
    }
    PassResult { actions, tally: CopyTally { copied, skipped }, dest_names: dest }
}

} // verus!
