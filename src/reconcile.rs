//! Reconciliation of a manifest against the live file tree: generate, validate
//! and update. The live tree is handed in as the canonical key and digest of
//! each file that was enumerated and digested, in enumeration order.
use crate::manifest::{
    is_hex_digest, is_line_path, keys_of, lemma_map_of_domain, lemma_map_of_index,
    lemma_parse_rendered, map_of, parsed_entries, render_line, rendered_lines, unique_keys,
    Manifest,
};
use vstd::prelude::*;

verus! {

/// One live file: its canonical key and the digest of its current contents.
pub struct LiveFile {
    pub key: String,
    pub digest: String,
}

/// The live files as `(key, digest)` pairs.
pub open spec fn live_pairs(live: Seq<LiveFile>) -> Seq<(Seq<char>, Seq<char>)> {
    live.map_values(|f: LiveFile| (f.key@, f.digest@))
}

/// How validation classifies a live file.
#[derive(PartialEq, Eq, Structural, Clone, Copy, Debug)]
pub enum FileStatus {
    /// Recorded, and the digest matches.
    Valid,
    /// Recorded with another digest.
    Invalid,
    /// Not recorded.
    New,
}

/// The validation class of a live file with key `k` and digest `d` against `m`.
pub open spec fn validate_status(m: Map<Seq<char>, Seq<char>>, k: Seq<char>, d: Seq<char>) -> FileStatus {
    if !m.contains_key(k) {
        FileStatus::New
    } else if m[k] == d {
        FileStatus::Valid
    } else {
        FileStatus::Invalid
    }
}

/// How many of the live files validation puts in class `st`.
pub open spec fn count_status(
    m: Map<Seq<char>, Seq<char>>,
    s: Seq<(Seq<char>, Seq<char>)>,
    st: FileStatus,
) -> nat
    decreases s.len(),
{
    if s.len() == 0 {
        0
    } else {
        count_status(m, s.drop_last(), st) + if validate_status(m, s.last().0, s.last().1) == st {
            1nat
        } else {
            0nat
        }
    }
}

/// The keys of `keys` that are not among `live`, in order.
pub open spec fn missing_keys(keys: Seq<Seq<char>>, live: Seq<Seq<char>>) -> Seq<Seq<char>>
    decreases keys.len(),
{
    if keys.len() == 0 {
        Seq::empty()
    } else if live.contains(keys.last()) {
        missing_keys(keys.drop_last(), live)
    } else {
        missing_keys(keys.drop_last(), live).push(keys.last())
    }
}

/// The outcome of validating a manifest against the live tree.
pub struct ValidationReport {
    /// The class of each live file, in the order given.
    pub statuses: Vec<FileStatus>,
    pub valid_count: usize,
    pub invalid_count: usize,
    pub new_count: usize,
    /// The recorded keys with no live file, in manifest order.
    pub missing: Vec<String>,
    pub missing_count: usize,
}

impl ValidationReport {
    /// Validation passes when no file is invalid and none is missing; new files
    /// alone do not fail it.
    pub fn passed(&self) -> (r: bool)
        ensures
            r == (self.invalid_count == 0 && self.missing_count == 0),
    {
        self.invalid_count == 0 && self.missing_count == 0
    }
}

/// Whether some live file has key `key`.
pub fn live_contains(live: &Vec<LiveFile>, key: &String) -> (r: bool)
    ensures
        r == keys_of(live_pairs(live@)).contains(key@),
{
    let mut i: usize = 0;
    while i < live.len()
        invariant
            i <= live@.len(),
            forall|j: int| 0 <= j < i ==> live@[j].key@ != key@,
        decreases live.len() - i,
    {
        if live[i].key == *key {
            assert(keys_of(live_pairs(live@))[i as int] == key@);
            return true;
        }
        i = i + 1;
    }
    assert forall|j: int| 0 <= j < keys_of(live_pairs(live@)).len() implies keys_of(
        live_pairs(live@),
    )[j] != key@ by {
        assert(keys_of(live_pairs(live@))[j] == live@[j].key@);
    }
    false
}

/// Checks the live tree against a manifest: each live file is valid, invalid or
/// new; each recorded key without a live file is missing.
pub fn validate(manifest: &Manifest, live: &Vec<LiveFile>) -> (r: ValidationReport)
    requires
        manifest.wf(),
    ensures
        r.statuses@.len() == live@.len(),
        forall|i: int|
            0 <= i < live@.len() ==> r.statuses@[i] == validate_status(
                manifest@,
                #[trigger] live@[i].key@,
                live@[i].digest@,
            ),
        r.valid_count == count_status(manifest@, live_pairs(live@), FileStatus::Valid),
        r.invalid_count == count_status(manifest@, live_pairs(live@), FileStatus::Invalid),
        r.new_count == count_status(manifest@, live_pairs(live@), FileStatus::New),
        r.valid_count + r.invalid_count + r.new_count == live@.len(),
        r.missing@.map_values(|k: String| k@) == missing_keys(
            keys_of(manifest.pairs()),
            keys_of(live_pairs(live@)),
        ),
        r.missing_count == r.missing@.len(),
{
    let ghost lp = live_pairs(live@);
    let mut statuses: Vec<FileStatus> = Vec::new();
    let mut valid_count: usize = 0;
    let mut invalid_count: usize = 0;
    let mut new_count: usize = 0;
    let mut i: usize = 0;
    while i < live.len()
        invariant
            i <= live@.len(),
            lp == live_pairs(live@),
            manifest.wf(),
            statuses@.len() == i,
            forall|j: int|
                0 <= j < i ==> statuses@[j] == validate_status(
                    manifest@,
                    #[trigger] live@[j].key@,
                    live@[j].digest@,
                ),
            valid_count == count_status(manifest@, lp.take(i as int), FileStatus::Valid),
            invalid_count == count_status(manifest@, lp.take(i as int), FileStatus::Invalid),
            new_count == count_status(manifest@, lp.take(i as int), FileStatus::New),
            valid_count + invalid_count + new_count == i,
        decreases live.len() - i,
    {
        let f = &live[i];
        assert(lp.take(i as int + 1).drop_last() =~= lp.take(i as int));
        assert(lp.take(i as int + 1).last() == (f.key@, f.digest@));
        let st = match manifest.get(f.key.as_str()) {
            None => FileStatus::New,
            Some(d) => if *d == f.digest {
                FileStatus::Valid
            } else {
                FileStatus::Invalid
            },
        };
        match st {
            FileStatus::Valid => valid_count = valid_count + 1,
            FileStatus::Invalid => invalid_count = invalid_count + 1,
            FileStatus::New => new_count = new_count + 1,
        }
        statuses.push(st);
        i = i + 1;
    }
    assert(lp.take(i as int) =~= lp);
    let ghost mk = keys_of(manifest.pairs());
    let ghost lk = keys_of(lp);
    let mut missing: Vec<String> = Vec::new();
    let mut k: usize = 0;
    while k < manifest.len()
        invariant
            k <= manifest.pairs().len(),
            mk == keys_of(manifest.pairs()),
            lk == keys_of(live_pairs(live@)),
            missing@.len() <= k,
            missing@.map_values(|s: String| s@) == missing_keys(mk.take(k as int), lk),
        decreases manifest.pairs().len() - k,
    {
        let (p, _d) = manifest.entry(k);
        assert(mk.take(k as int + 1).drop_last() =~= mk.take(k as int));
        assert(mk.take(k as int + 1).last() == p@);
        if !live_contains(live, p) {
            let ghost before = missing@;
            missing.push(p.clone());
            assert(missing@.map_values(|s: String| s@) =~= before.map_values(|s: String| s@).push(p@));
        }
        k = k + 1;
    }
    assert(mk.take(k as int) =~= mk);
    let missing_count = missing.len();
    ValidationReport { statuses, valid_count, invalid_count, new_count, missing, missing_count }
}

/// How updating classifies a live file.
#[derive(PartialEq, Eq, Structural, Clone, Copy, Debug)]
pub enum UpdateStatus {
    /// Recorded with the same digest: left as it is.
    Unchanged,
    /// Recorded with another digest: overwritten.
    Updated,
    /// Not recorded: added.
    New,
}

/// The update class of a live file with key `k` and digest `d` against `m`.
pub open spec fn update_status(m: Map<Seq<char>, Seq<char>>, k: Seq<char>, d: Seq<char>) -> UpdateStatus {
    if !m.contains_key(k) {
        UpdateStatus::New
    } else if m[k] == d {
        UpdateStatus::Unchanged
    } else {
        UpdateStatus::Updated
    }
}

/// The manifest mapping `m` after the live files `s` have been recorded in turn.
pub open spec fn after_recording(
    m: Map<Seq<char>, Seq<char>>,
    s: Seq<(Seq<char>, Seq<char>)>,
) -> Map<Seq<char>, Seq<char>> {
    m.union_prefer_right(map_of(s))
}

/// How many of the live files updating puts in class `st`, each classified
/// against the mapping as it stands when its turn comes.
pub open spec fn count_update(
    m: Map<Seq<char>, Seq<char>>,
    s: Seq<(Seq<char>, Seq<char>)>,
    st: UpdateStatus,
) -> nat
    decreases s.len(),
{
    if s.len() == 0 {
        0
    } else {
        count_update(m, s.drop_last(), st) + if update_status(
            after_recording(m, s.drop_last()),
            s.last().0,
            s.last().1,
        ) == st {
            1nat
        } else {
            0nat
        }
    }
}

/// The outcome of updating a manifest from the live tree.
pub struct UpdateReport {
    /// The class of each live file, in the order given.
    pub statuses: Vec<UpdateStatus>,
    pub unchanged_count: usize,
    pub updated_count: usize,
    pub new_count: usize,
    /// The recorded keys with no live file, removed, in manifest order.
    pub removed: Vec<String>,
    pub removed_count: usize,
}

pub proof fn lemma_missing_keys_append(a: Seq<Seq<char>>, b: Seq<Seq<char>>, live: Seq<Seq<char>>)
    requires
        forall|i: int| 0 <= i < b.len() ==> live.contains(#[trigger] b[i]),
    ensures
        missing_keys(a + b, live) == missing_keys(a, live),
    decreases b.len(),
{
    if b.len() == 0 {
        assert(a + b =~= a);
    } else {
        assert((a + b).drop_last() =~= a + b.drop_last());
        assert(live.contains(b[b.len() - 1]));
        lemma_missing_keys_append(a, b.drop_last(), live);
    }
}

/// Brings a manifest in line with the live tree: new files are added, changed
/// digests overwritten, and entries without a live file removed.
pub fn update(manifest: &mut Manifest, live: &Vec<LiveFile>) -> (r: UpdateReport)
    requires
        old(manifest).wf(),
    ensures
        final(manifest).wf(),
        final(manifest)@ == map_of(live_pairs(live@)),
        r.statuses@.len() == live@.len(),
        forall|i: int|
            0 <= i < live@.len() ==> r.statuses@[i] == update_status(
                after_recording(old(manifest)@, live_pairs(live@).take(i)),
                #[trigger] live@[i].key@,
                live@[i].digest@,
            ),
        r.unchanged_count == count_update(old(manifest)@, live_pairs(live@), UpdateStatus::Unchanged),
        r.updated_count == count_update(old(manifest)@, live_pairs(live@), UpdateStatus::Updated),
        r.new_count == count_update(old(manifest)@, live_pairs(live@), UpdateStatus::New),
        r.unchanged_count + r.updated_count + r.new_count == live@.len(),
        r.removed@.map_values(|k: String| k@) == missing_keys(
            keys_of(old(manifest).pairs()),
            keys_of(live_pairs(live@)),
        ),
        r.removed_count == r.removed@.len(),
{
    let ghost m0 = manifest@;
    let ghost k0 = keys_of(manifest.pairs());
    let ghost lp = live_pairs(live@);
    let ghost lk = keys_of(lp);
    let ghost mut extra: Seq<Seq<char>> = Seq::empty();
    let mut statuses: Vec<UpdateStatus> = Vec::new();
    let mut unchanged_count: usize = 0;
    let mut updated_count: usize = 0;
    let mut new_count: usize = 0;
    let mut i: usize = 0;
    assert(m0 =~= after_recording(m0, lp.take(0)));
    assert(k0 + extra =~= k0);
    while i < live.len()
        invariant
            i <= live@.len(),
            lp == live_pairs(live@),
            lk == keys_of(lp),
            manifest.wf(),
            manifest@ == after_recording(m0, lp.take(i as int)),
            keys_of(manifest.pairs()) == k0 + extra,
            forall|j: int| 0 <= j < extra.len() ==> lk.contains(#[trigger] extra[j]),
            statuses@.len() == i,
            forall|j: int|
                0 <= j < i ==> statuses@[j] == update_status(
                    after_recording(m0, lp.take(j)),
                    #[trigger] live@[j].key@,
                    live@[j].digest@,
                ),
            unchanged_count == count_update(m0, lp.take(i as int), UpdateStatus::Unchanged),
            updated_count == count_update(m0, lp.take(i as int), UpdateStatus::Updated),
            new_count == count_update(m0, lp.take(i as int), UpdateStatus::New),
            unchanged_count + updated_count + new_count == i,
        decreases live.len() - i,
    {
        let f = &live[i];
        assert(lp.take(i as int + 1).drop_last() =~= lp.take(i as int));
        assert(lp.take(i as int + 1).last() == (f.key@, f.digest@));
        assert(lk[i as int] == f.key@);
        let st = match manifest.get(f.key.as_str()) {
            None => UpdateStatus::New,
            Some(d) => if *d == f.digest {
                UpdateStatus::Unchanged
            } else {
                UpdateStatus::Updated
            },
        };
        proof {
            crate::manifest::lemma_map_of_domain(manifest.pairs(), f.key@);
        }
        if st != UpdateStatus::Unchanged {
            let ghost before_keys = keys_of(manifest.pairs());
            manifest.insert(f.key.clone(), f.digest.clone());
            proof {
                if !before_keys.contains(f.key@) {
                    assert(k0 + extra.push(f.key@) =~= (k0 + extra).push(f.key@));
                    extra = extra.push(f.key@);
                }
            }
        }
        assert(manifest@ =~= after_recording(m0, lp.take(i as int + 1)));
        match st {
            UpdateStatus::Unchanged => unchanged_count = unchanged_count + 1,
            UpdateStatus::Updated => updated_count = updated_count + 1,
            UpdateStatus::New => new_count = new_count + 1,
        }
        statuses.push(st);
        i = i + 1;
    }
    assert(lp.take(i as int) =~= lp);
    proof {
        lemma_missing_keys_append(k0, extra, lk);
    }
    // Second pass: keep the entries that have a live file.
    let ghost post = manifest.pairs();
    let ghost pk = keys_of(post);
    let ghost live_set = Set::new(|k: Seq<char>| lk.contains(k));
    let mut kept = Manifest::new();
    let mut removed: Vec<String> = Vec::new();
    let mut k: usize = 0;
    while k < manifest.len()
        invariant
            k <= post.len(),
            post == manifest.pairs(),
            pk == keys_of(post),
            crate::manifest::unique_keys(post),
            lk == keys_of(live_pairs(live@)),
            live_set == Set::new(|k: Seq<char>| lk.contains(k)),
            kept.wf(),
            kept@ == map_of(post.take(k as int)).restrict(live_set),
            removed@.len() <= k,
            removed@.map_values(|s: String| s@) == missing_keys(pk.take(k as int), lk),
        decreases post.len() - k,
    {
        let (p, d) = manifest.entry(k);
        assert(pk.take(k as int + 1).drop_last() =~= pk.take(k as int));
        assert(pk.take(k as int + 1).last() == p@);
        assert(post.take(k as int + 1).drop_last() =~= post.take(k as int));
        assert(post.take(k as int + 1).last() == (p@, d@));
        if live_contains(live, p) {
            kept.insert(p.clone(), d.clone());
            assert(kept@ =~= map_of(post.take(k as int + 1)).restrict(live_set));
        } else {
            let ghost before = removed@;
            removed.push(p.clone());
            assert(removed@.map_values(|s: String| s@) =~= before.map_values(|s: String| s@).push(p@));
            assert(kept@ =~= map_of(post.take(k as int + 1)).restrict(live_set));
        }
        k = k + 1;
    }
    assert(pk.take(k as int) =~= pk);
    assert(post.take(k as int) =~= post);
    assert forall|key: Seq<char>| #[trigger] kept@.contains_key(key) == map_of(lp).contains_key(key) by {
        crate::manifest::lemma_map_of_domain(lp, key);
    }
    assert(kept@ =~= map_of(lp));
    *manifest = kept;
    let removed_count = removed.len();
    UpdateReport { statuses, unchanged_count, updated_count, new_count, removed, removed_count }
}

/// The live files of the digest outcomes that succeeded, as `(key, digest)`
/// pairs in order.
pub open spec fn successes(results: Seq<Option<LiveFile>>) -> Seq<(Seq<char>, Seq<char>)>
    decreases results.len(),
{
    if results.len() == 0 {
        Seq::empty()
    } else {
        match results.last() {
            Some(f) => successes(results.drop_last()).push((f.key@, f.digest@)),
            None => successes(results.drop_last()),
        }
    }
}

/// The outcome of generating a manifest.
pub struct GenerateReport {
    /// The manifest's lines, in enumeration order.
    pub lines: Vec<String>,
    pub succeeded: usize,
    pub failed: usize,
}

/// Builds a fresh manifest from the per-file digest outcomes, in enumeration
/// order: one line per file that was digested; failures are only counted.
pub fn generate(results: &Vec<Option<LiveFile>>) -> (r: GenerateReport)
    ensures
        r.lines@.map_values(|l: String| l@) == rendered_lines(successes(results@)),
        r.succeeded == successes(results@).len(),
        r.succeeded + r.failed == results@.len(),
{
    let mut lines: Vec<String> = Vec::new();
    let mut succeeded: usize = 0;
    let mut failed: usize = 0;
    let mut i: usize = 0;
    while i < results.len()
        invariant
            i <= results@.len(),
            lines@.map_values(|l: String| l@) == rendered_lines(successes(results@.take(i as int))),
            succeeded == successes(results@.take(i as int)).len(),
            succeeded + failed == i,
        decreases results.len() - i,
    {
        assert(results@.take(i as int + 1).drop_last() =~= results@.take(i as int));
        match &results[i] {
            Some(f) => {
                let ghost before = lines@;
                lines.push(render_line(f.key.as_str(), f.digest.as_str()));
                assert(rendered_lines(successes(results@.take(i as int + 1))) =~= rendered_lines(
                    successes(results@.take(i as int)),
                ).push(crate::manifest::line_of(f.key@, f.digest@)));
                assert(lines@.map_values(|l: String| l@) =~= before.map_values(|l: String| l@).push(
                    crate::manifest::line_of(f.key@, f.digest@),
                ));
                succeeded = succeeded + 1;
            },
            None => {
                failed = failed + 1;
            },
        }
        i = i + 1;
    }
    assert(results@.take(i as int) =~= results@);
    GenerateReport { lines, succeeded, failed }
}

pub proof fn lemma_count_status_none(
    m: Map<Seq<char>, Seq<char>>,
    s: Seq<(Seq<char>, Seq<char>)>,
    st: FileStatus,
)
    requires
        forall|i: int| 0 <= i < s.len() ==> validate_status(m, #[trigger] s[i].0, s[i].1) != st,
    ensures
        count_status(m, s, st) == 0,
    decreases s.len(),
{
    if s.len() > 0 {
        assert(validate_status(m, s[s.len() - 1].0, s[s.len() - 1].1) != st);
        assert forall|i: int| 0 <= i < s.drop_last().len() implies validate_status(
            m,
            #[trigger] s.drop_last()[i].0,
            s.drop_last()[i].1,
        ) != st by {
            assert(s.drop_last()[i] == s[i]);
        }
        lemma_count_status_none(m, s.drop_last(), st);
    }
}

pub proof fn lemma_count_status_one(
    m: Map<Seq<char>, Seq<char>>,
    s: Seq<(Seq<char>, Seq<char>)>,
    st: FileStatus,
    j: int,
)
    requires
        0 <= j < s.len(),
        validate_status(m, s[j].0, s[j].1) == st,
        forall|i: int|
            0 <= i < s.len() && i != j ==> validate_status(m, #[trigger] s[i].0, s[i].1) != st,
    ensures
        count_status(m, s, st) == 1,
    decreases s.len(),
{
    let init = s.drop_last();
    if j == s.len() - 1 {
        assert forall|i: int| 0 <= i < init.len() implies validate_status(
            m,
            #[trigger] init[i].0,
            init[i].1,
        ) != st by {
            assert(init[i] == s[i]);
        }
        lemma_count_status_none(m, init, st);
    } else {
        assert(validate_status(m, s[s.len() - 1].0, s[s.len() - 1].1) != st);
        assert(init[j] == s[j]);
        assert forall|i: int| 0 <= i < init.len() && i != j implies validate_status(
            m,
            #[trigger] init[i].0,
            init[i].1,
        ) != st by {
            assert(init[i] == s[i]);
        }
        lemma_count_status_one(m, init, st, j);
    }
}

/// A key list with every key among `live` has no missing key.
pub proof fn lemma_missing_keys_none(keys: Seq<Seq<char>>, live: Seq<Seq<char>>)
    requires
        forall|i: int| 0 <= i < keys.len() ==> live.contains(#[trigger] keys[i]),
    ensures
        missing_keys(keys, live) == Seq::<Seq<char>>::empty(),
{
    lemma_missing_keys_append(Seq::empty(), keys, live);
    assert(Seq::<Seq<char>>::empty() + keys =~= keys);
}

/// A key list of unique keys, all among `live` but `x`, misses exactly `x`.
pub proof fn lemma_missing_keys_one(keys: Seq<Seq<char>>, live: Seq<Seq<char>>, x: Seq<char>)
    requires
        keys.contains(x),
        !live.contains(x),
        forall|i: int, j: int| 0 <= i < j < keys.len() ==> keys[i] != keys[j],
        forall|i: int| 0 <= i < keys.len() ==> #[trigger] keys[i] == x || live.contains(keys[i]),
    ensures
        missing_keys(keys, live) == seq![x],
    decreases keys.len(),
{
    let init = keys.drop_last();
    if keys.last() == x {
        assert forall|i: int| 0 <= i < init.len() implies live.contains(#[trigger] init[i]) by {
            assert(init[i] == keys[i]);
            assert(keys[i] != keys[keys.len() - 1]);
        }
        lemma_missing_keys_none(init, live);
        assert(Seq::<Seq<char>>::empty().push(x) =~= seq![x]);
    } else {
        let k = choose|k: int| 0 <= k < keys.len() && keys[k] == x;
        assert(init[k] == x);
        assert(live.contains(keys[keys.len() - 1]));
        assert forall|i: int| 0 <= i < init.len() implies #[trigger] init[i] == x || live.contains(
            init[i],
        ) by {
            assert(init[i] == keys[i]);
        }
        lemma_missing_keys_one(init, live, x);
    }
}

/// Every key a manifest holds is a key of the live files it was built from.
pub proof fn lemma_manifest_keys_within(m: Manifest, s: Seq<(Seq<char>, Seq<char>)>)
    requires
        m.wf(),
        m@ == map_of(s),
    ensures
        forall|i: int|
            0 <= i < keys_of(m.pairs()).len() ==> keys_of(s).contains(#[trigger] keys_of(m.pairs())[i]),
{
    assert forall|i: int| 0 <= i < keys_of(m.pairs()).len() implies keys_of(s).contains(
        #[trigger] keys_of(m.pairs())[i],
    ) by {
        let k = keys_of(m.pairs())[i];
        lemma_map_of_domain(m.pairs(), k);
        lemma_map_of_domain(s, k);
    }
}

/// Live files with unique keys and well-formed paths and digests.
pub open spec fn is_live_tree(s: Seq<(Seq<char>, Seq<char>)>) -> bool {
    &&& unique_keys(s)
    &&& forall|i: int| 0 <= i < s.len() ==> is_line_path(#[trigger] s[i].0) && is_hex_digest(s[i].1)
}

/// The mapping that loading the generated manifest of `s` gives.
pub open spec fn generated_map(s: Seq<(Seq<char>, Seq<char>)>) -> Map<Seq<char>, Seq<char>> {
    map_of(parsed_entries(rendered_lines(s)))
}

/// Validating an unchanged tree against the manifest generated from it finds every
/// file valid, none invalid and none missing.
pub proof fn lemma_generate_then_validate(s: Seq<(Seq<char>, Seq<char>)>, loaded: Manifest)
    requires
        is_live_tree(s),
        loaded.wf(),
        loaded@ == generated_map(s),
    ensures
        forall|i: int| 0 <= i < s.len() ==> validate_status(loaded@, #[trigger] s[i].0, s[i].1) == FileStatus::Valid,
        count_status(loaded@, s, FileStatus::Invalid) == 0,
        missing_keys(keys_of(loaded.pairs()), keys_of(s)).len() == 0,
{
    lemma_parse_rendered(s);
    assert forall|i: int| 0 <= i < s.len() implies validate_status(loaded@, #[trigger] s[i].0, s[i].1)
        == FileStatus::Valid by {
        lemma_map_of_index(s, i);
    }
    lemma_count_status_none(loaded@, s, FileStatus::Invalid);
    lemma_manifest_keys_within(loaded, s);
    lemma_missing_keys_none(keys_of(loaded.pairs()), keys_of(s));
}

/// Changing one file's contents after generating makes exactly that file invalid,
/// and validation fails.
pub proof fn lemma_changed_file_invalid(
    s: Seq<(Seq<char>, Seq<char>)>,
    loaded: Manifest,
    j: int,
    d: Seq<char>,
)
    requires
        is_live_tree(s),
        loaded.wf(),
        loaded@ == generated_map(s),
        0 <= j < s.len(),
        d != s[j].1,
    ensures
        validate_status(loaded@, s[j].0, d) == FileStatus::Invalid,
        count_status(loaded@, s.update(j, (s[j].0, d)), FileStatus::Invalid) == 1,
        missing_keys(keys_of(loaded.pairs()), keys_of(s.update(j, (s[j].0, d)))).len() == 0,
{
    let s2 = s.update(j, (s[j].0, d));
    lemma_parse_rendered(s);
    lemma_map_of_index(s, j);
    assert forall|i: int| 0 <= i < s2.len() && i != j implies validate_status(
        loaded@,
        #[trigger] s2[i].0,
        s2[i].1,
    ) != FileStatus::Invalid by {
        lemma_map_of_index(s, i);
    }
    lemma_count_status_one(loaded@, s2, FileStatus::Invalid, j);
    lemma_manifest_keys_within(loaded, s);
    assert(keys_of(s2) =~= keys_of(s));
    lemma_missing_keys_none(keys_of(loaded.pairs()), keys_of(s2));
}

/// Deleting one file after generating makes exactly its key missing; updating
/// instead removes exactly that key.
pub proof fn lemma_deleted_file_missing(s: Seq<(Seq<char>, Seq<char>)>, loaded: Manifest, j: int)
    requires
        is_live_tree(s),
        loaded.wf(),
        loaded@ == generated_map(s),
        0 <= j < s.len(),
    ensures
        missing_keys(keys_of(loaded.pairs()), keys_of(s.remove(j))) == seq![s[j].0],
        !map_of(s.remove(j)).contains_key(s[j].0),
{
    let s2 = s.remove(j);
    let x = s[j].0;
    lemma_parse_rendered(s);
    lemma_manifest_keys_within(loaded, s);
    lemma_map_of_domain(s2, x);
    assert forall|i: int| 0 <= i < keys_of(s2).len() implies keys_of(s2)[i] != x by {
        if i < j {
            assert(keys_of(s2)[i] == s[i].0);
        } else {
            assert(keys_of(s2)[i] == s[i + 1].0);
        }
    }
    let lk = keys_of(loaded.pairs());
    assert forall|i: int| 0 <= i < lk.len() implies #[trigger] lk[i] == x || keys_of(s2).contains(
        lk[i],
    ) by {
        assert(keys_of(s).contains(lk[i]));
        let k = choose|k: int| 0 <= k < keys_of(s).len() && keys_of(s)[k] == lk[i];
        if k < j {
            assert(keys_of(s2)[k] == lk[i]);
        } else if k > j {
            assert(keys_of(s2)[k - 1] == lk[i]);
        }
    }
    lemma_map_of_index(s, j);
    lemma_map_of_domain(loaded.pairs(), x);
    assert forall|a: int, b: int| 0 <= a < b < lk.len() implies lk[a] != lk[b] by {
        assert(lk[a] == loaded.pairs()[a].0);
        assert(lk[b] == loaded.pairs()[b].0);
    }
    lemma_missing_keys_one(lk, keys_of(s2), x);
}

pub proof fn lemma_count_update_none_new(
    m: Map<Seq<char>, Seq<char>>,
    s: Seq<(Seq<char>, Seq<char>)>,
)
    requires
        forall|i: int| 0 <= i < s.len() ==> m.contains_key(#[trigger] s[i].0),
    ensures
        count_update(m, s, UpdateStatus::New) == 0,
    decreases s.len(),
{
    if s.len() > 0 {
        assert(m.contains_key(s[s.len() - 1].0));
        assert forall|i: int| 0 <= i < s.drop_last().len() implies m.contains_key(
            #[trigger] s.drop_last()[i].0,
        ) by {
            assert(s.drop_last()[i] == s[i]);
        }
        lemma_count_update_none_new(m, s.drop_last());
    }
}

/// Adding one untracked file after generating makes exactly that file new, both to
/// validation, which still passes, and to updating.
pub proof fn lemma_added_file_new(
    s: Seq<(Seq<char>, Seq<char>)>,
    loaded: Manifest,
    k: Seq<char>,
    d: Seq<char>,
)
    requires
        is_live_tree(s),
        loaded.wf(),
        loaded@ == generated_map(s),
        !keys_of(s).contains(k),
    ensures
        count_status(loaded@, s.push((k, d)), FileStatus::New) == 1,
        count_status(loaded@, s.push((k, d)), FileStatus::Invalid) == 0,
        missing_keys(keys_of(loaded.pairs()), keys_of(s.push((k, d)))).len() == 0,
        count_update(loaded@, s.push((k, d)), UpdateStatus::New) == 1,
{
    let s2 = s.push((k, d));
    lemma_parse_rendered(s);
    lemma_map_of_domain(s, k);
    assert forall|i: int| 0 <= i < s2.len() && i != s.len() implies validate_status(
        loaded@,
        #[trigger] s2[i].0,
        s2[i].1,
    ) != FileStatus::New by {
        lemma_map_of_index(s, i);
    }
    lemma_count_status_one(loaded@, s2, FileStatus::New, s.len() as int);
    assert forall|i: int| 0 <= i < s2.len() implies validate_status(
        loaded@,
        #[trigger] s2[i].0,
        s2[i].1,
    ) != FileStatus::Invalid by {
        if i < s.len() {
            lemma_map_of_index(s, i);
        }
    }
    lemma_count_status_none(loaded@, s2, FileStatus::Invalid);
    lemma_manifest_keys_within(loaded, s);
    let lk = keys_of(loaded.pairs());
    assert forall|i: int| 0 <= i < lk.len() implies keys_of(s2).contains(#[trigger] lk[i]) by {
        let t = choose|t: int| 0 <= t < keys_of(s).len() && keys_of(s)[t] == lk[i];
        assert(keys_of(s2)[t] == lk[i]);
    }
    lemma_missing_keys_none(lk, keys_of(s2));
    assert forall|i: int| 0 <= i < s.len() implies loaded@.contains_key(#[trigger] s[i].0) by {
        lemma_map_of_index(s, i);
    }
    lemma_count_update_none_new(loaded@, s);
    assert(s2.drop_last() =~= s);
    assert(after_recording(loaded@, s) =~= loaded@) by {
        assert forall|key: Seq<char>| #[trigger] map_of(s).contains_key(key) implies loaded@.contains_key(key) by {
        }
    }
}

} // verus!
