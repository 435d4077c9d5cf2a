//! Secure record store model: a named secret container holding labeled
//! secret records, with create, open, search, insert and delete-by-identity
//! operations. Labels are not unique; a record's identity for deletion is the
//! (label, account) pair. Search returns matches in stored order, bounded by
//! an optional limit, and an absence of matches is an empty result, not an
//! error.

use vstd::prelude::*;
use vstd::seq_lib::*;

use crate::error::StoreError;

verus! {

/// One labeled secret entry inside a container: the label is the user-chosen
/// profile name, the account holds the access-key identifier, and the secret
/// data holds the secret-key text.
pub struct SecretRecord {
    pub label: String,
    pub account: String,
    pub secret_data: String,
}

/// Mathematical image of a secret record.
#[verifier::ext_equal]
pub struct RecordView {
    pub label: Seq<char>,
    pub account: Seq<char>,
    pub secret_data: Seq<char>,
}

impl View for SecretRecord {
    type V = RecordView;

    open spec fn view(&self) -> RecordView {
        RecordView { label: self.label@, account: self.account@, secret_data: self.secret_data@ }
    }
}

impl SecretRecord {
    /// A field-for-field copy of this record.
    pub fn duplicate(&self) -> (r: SecretRecord)
        ensures
            r@ == self@,
    {
        let r = SecretRecord {
            label: self.label.clone(),
            account: self.account.clone(),
            secret_data: self.secret_data.clone(),
        };
        proof {
            assert(r@ =~= self@);
        }
        r
    }
}

/// A named secure secret container and its locking policy.
pub struct Container {
    pub name: String,
    pub lock_on_sleep: bool,
    pub lock_interval_seconds: Option<u32>,
    pub records: Vec<SecretRecord>,
}

/// Mathematical image of a container.
#[verifier::ext_equal]
pub struct ContainerView {
    pub name: Seq<char>,
    pub lock_on_sleep: bool,
    pub lock_interval_seconds: Option<u32>,
    pub records: Seq<RecordView>,
}

/// The views of a run of records.
pub open spec fn views_of(rs: Seq<SecretRecord>) -> Seq<RecordView> {
    rs.map_values(|r: SecretRecord| r@)
}

impl View for Container {
    type V = ContainerView;

    open spec fn view(&self) -> ContainerView {
        ContainerView {
            name: self.name@,
            lock_on_sleep: self.lock_on_sleep,
            lock_interval_seconds: self.lock_interval_seconds,
            records: views_of(self.records@),
        }
    }
}

/// A container as creation leaves it: no records, no locking policy yet.
pub open spec fn fresh_container(name: Seq<char>) -> ContainerView {
    ContainerView { name, lock_on_sleep: false, lock_interval_seconds: None, records: Seq::empty() }
}

/// The record filter a search applies: every record when no label is asked
/// for, else exactly the records bearing that label.
pub open spec fn label_matches(filter: Option<Seq<char>>) -> spec_fn(RecordView) -> bool {
    |r: RecordView|
        match filter {
            Some(l) => r.label == l,
            None => true,
        }
}

/// The records a deletion of one profile leaves behind.
pub open spec fn label_differs(profile: Seq<char>) -> spec_fn(RecordView) -> bool {
    |r: RecordView| r.label != profile
}

/// Exact record identity: the (label, account) pair.
pub open spec fn identity_matches(label: Seq<char>, account: Seq<char>) -> spec_fn(
    RecordView,
) -> bool {
    |r: RecordView| r.label == label && r.account == account
}

/// What a search yields: the matching records in stored order, cut off at the
/// limit when one is given.
pub open spec fn search_spec(
    records: Seq<RecordView>,
    filter: Option<Seq<char>>,
    limit: Option<usize>,
) -> Seq<RecordView> {
    let m = records.filter(label_matches(filter));
    match limit {
        Some(l) => if m.len() > l {
            m.take(l as int)
        } else {
            m
        },
        None => m,
    }
}

/// The position of the first record a predicate accepts, if any.
pub open spec fn first_match_index(s: Seq<RecordView>, p: spec_fn(RecordView) -> bool) -> Option<
    int,
>
    decreases s.len(),
{
    if s.len() == 0 {
        None
    } else if p(s[0]) {
        Some(0)
    } else {
        match first_match_index(s.skip(1), p) {
            Some(i) => Some(i + 1),
            None => None,
        }
    }
}

/// `first_match_index` finds the first accepted record: at its answer the
/// predicate holds and before it the predicate fails everywhere; a `None`
/// answer means the predicate fails on every record.
pub proof fn lemma_first_match_index(s: Seq<RecordView>, p: spec_fn(RecordView) -> bool)
    ensures
        match first_match_index(s, p) {
            Some(i) => 0 <= i < s.len() && p(s[i]) && (forall|j: int| 0 <= j < i ==> !p(s[j])),
            None => forall|j: int| 0 <= j < s.len() ==> !p(s[j]),
        },
    decreases s.len(),
{
    if s.len() > 0 && !p(s[0]) {
        lemma_first_match_index(s.skip(1), p);
        match first_match_index(s.skip(1), p) {
            Some(i) => {
                assert(s.skip(1)[i] == s[i + 1]);
                assert forall|j: int| 0 <= j < i + 1 implies !p(s[j]) by {
                    if j > 0 {
                        assert(s.skip(1)[j - 1] == s[j]);
                    }
                }
            },
            None => {
                assert forall|j: int| 0 <= j < s.len() implies !p(s[j]) by {
                    if j > 0 {
                        assert(s.skip(1)[j - 1] == s[j]);
                    }
                }
            },
        }
    }
}

/// The position of the container bearing a name, if any.
pub open spec fn find_container(s: Seq<ContainerView>, name: Seq<char>) -> Option<int>
    decreases s.len(),
{
    if s.len() == 0 {
        None
    } else if s[0].name == name {
        Some(0)
    } else {
        match find_container(s.skip(1), name) {
            Some(i) => Some(i + 1),
            None => None,
        }
    }
}

/// `find_container` finds the first container with the name, and a `None`
/// answer means no container bears it.
pub proof fn lemma_find_container(s: Seq<ContainerView>, name: Seq<char>)
    ensures
        match find_container(s, name) {
            Some(i) => 0 <= i < s.len() && s[i].name == name && (forall|j: int|
                0 <= j < i ==> s[j].name != name),
            None => forall|j: int| 0 <= j < s.len() ==> s[j].name != name,
        },
    decreases s.len(),
{
    if s.len() > 0 && s[0].name != name {
        lemma_find_container(s.skip(1), name);
        match find_container(s.skip(1), name) {
            Some(i) => {
                assert(s.skip(1)[i] == s[i + 1]);
                assert forall|j: int| 0 <= j < i + 1 implies s[j].name != name by {
                    if j > 0 {
                        assert(s.skip(1)[j - 1] == s[j]);
                    }
                }
            },
            None => {
                assert forall|j: int| 0 <= j < s.len() implies s[j].name != name by {
                    if j > 0 {
                        assert(s.skip(1)[j - 1] == s[j]);
                    }
                }
            },
        }
    }
}

/// A predicate that accepts every record leaves a filter unchanged.
pub proof fn lemma_filter_all(s: Seq<RecordView>, p: spec_fn(RecordView) -> bool)
    requires
        forall|j: int| 0 <= j < s.len() ==> p(s[j]),
    ensures
        s.filter(p) == s,
    decreases s.len(),
{
    reveal(Seq::filter);
    if s.len() > 0 {
        lemma_filter_all(s.drop_last(), p);
        assert(s.filter(p) =~= s);
    }
}

/// Removing the first record of one profile takes the head off the run of
/// that profile's matches and leaves every other profile's records untouched.
pub proof fn lemma_delete_first_label_match(s: Seq<RecordView>, profile: Seq<char>)
    requires
        first_match_index(s, label_matches(Some(profile))) is Some,
    ensures
        ({
            let i = first_match_index(s, label_matches(Some(profile)))->Some_0;
            let p = label_matches(Some(profile));
            let np = label_differs(profile);
            &&& s.filter(p).len() > 0
            &&& s.filter(p)[0] == s[i]
            &&& s.remove(i).filter(p) == s.filter(p).skip(1)
            &&& s.remove(i).filter(np) == s.filter(np)
        }),
{
    reveal(Seq::filter);
    let i = first_match_index(s, label_matches(Some(profile)))->Some_0;
    let p = label_matches(Some(profile));
    let np = label_differs(profile);
    lemma_first_match_index(s, p);
    let head = s.take(i);
    let mid = seq![s[i]];
    let tail = s.skip(i + 1);
    assert(s =~= head + mid + tail);
    assert(s.remove(i) =~= head + tail);
    Seq::filter_distributes_over_add(head + mid, tail, p);
    Seq::filter_distributes_over_add(head, mid, p);
    Seq::filter_distributes_over_add(head, tail, p);
    Seq::filter_distributes_over_add(head + mid, tail, np);
    Seq::filter_distributes_over_add(head, mid, np);
    Seq::filter_distributes_over_add(head, tail, np);
    assert(forall|j: int| 0 <= j < head.len() ==> head[j] == s[j]);
    head.lemma_all_neg_filter_empty(p);
    lemma_filter_all(head, np);
    assert(mid.drop_last() =~= Seq::<RecordView>::empty());
    assert(Seq::<RecordView>::empty().filter(p) =~= Seq::<RecordView>::empty());
    assert(Seq::<RecordView>::empty().filter(np) =~= Seq::<RecordView>::empty());
    assert(mid.filter(p) =~= seq![s[i]]);
    assert(mid.filter(np) =~= Seq::<RecordView>::empty());
    assert(s.filter(p) =~= seq![s[i]] + tail.filter(p));
    assert(s.filter(p).skip(1) =~= tail.filter(p));
    assert(s.remove(i).filter(p) =~= tail.filter(p));
    assert(s.remove(i).filter(np) =~= s.filter(np));
}

/// Where no record bears the profile, the profile's match run is empty and a
/// deletion pass leaves the records exactly as they are.
pub proof fn lemma_no_label_match(s: Seq<RecordView>, profile: Seq<char>)
    requires
        first_match_index(s, label_matches(Some(profile))) is None,
    ensures
        s.filter(label_matches(Some(profile))) == Seq::<RecordView>::empty(),
        s.filter(label_differs(profile)) == s,
{
    lemma_first_match_index(s, label_matches(Some(profile)));
    s.lemma_all_neg_filter_empty(label_matches(Some(profile)));
    lemma_filter_all(s, label_differs(profile));
    assert(s.filter(label_matches(Some(profile))) =~= Seq::<RecordView>::empty());
}

/// The first record of a profile is also the first record with that record's
/// full (label, account) identity: deleting by the resolved identity deletes
/// exactly the first record of the profile.
pub proof fn lemma_first_identity_is_first_label(s: Seq<RecordView>, profile: Seq<char>)
    requires
        first_match_index(s, label_matches(Some(profile))) is Some,
    ensures
        ({
            let i = first_match_index(s, label_matches(Some(profile)))->Some_0;
            first_match_index(s, identity_matches(profile, s[i].account)) == Some(i)
        }),
{
    let p = label_matches(Some(profile));
    let i = first_match_index(s, p)->Some_0;
    let q = identity_matches(profile, s[i].account);
    lemma_first_match_index(s, p);
    lemma_first_match_index(s, q);
    match first_match_index(s, q) {
        Some(k) => {
            assert(p(s[k]));
            assert(q(s[i]));
        },
        None => {
            assert(q(s[i]));
        },
    }
}

/// Container lookup goes by name alone: two stores whose containers bear the
/// same names in the same order resolve every name to the same position.
pub proof fn lemma_find_same_names(s: Seq<ContainerView>, t: Seq<ContainerView>, name: Seq<char>)
    requires
        t.len() == s.len(),
        forall|j: int| 0 <= j < s.len() ==> t[j].name == s[j].name,
    ensures
        find_container(t, name) == find_container(s, name),
{
    lemma_find_container(s, name);
    lemma_find_container(t, name);
    match (find_container(s, name), find_container(t, name)) {
        (Some(i), Some(k)) => {
            assert(!(k < i) && !(i < k));
        },
        (Some(i), None) => {
            assert(t[i].name == name);
        },
        (None, Some(k)) => {
            assert(s[k].name == name);
        },
        (None, None) => {},
    }
}

/// The whole store: the operating system's collection of named containers,
/// of which this tool touches only the one with its well-known name.
pub struct StoreState {
    containers: Vec<Container>,
}

impl View for StoreState {
    type V = Seq<ContainerView>;

    closed spec fn view(&self) -> Seq<ContainerView> {
        self.containers@.map_values(|c: Container| c@)
    }
}

impl StoreState {
    /// Container names are meaningful only once: the store never holds two
    /// containers with the same name.
    pub open spec fn wf(self) -> bool {
        forall|i: int, j: int| 0 <= i < j < self@.len() ==> self@[i].name != self@[j].name
    }

    /// An empty store.
    pub fn new() -> (s: StoreState)
        ensures
            s@ =~= Seq::<ContainerView>::empty(),
            s.wf(),
    {
        StoreState { containers: Vec::new() }
    }

    /// Creates a new named container with no records and no locking policy.
    /// Fails with `ContainerExists`, changing nothing, exactly when a
    /// container with the name is already present.
    pub fn create_container(&mut self, name: &String) -> (r: Result<(), StoreError>)
        requires
            old(self).wf(),
        ensures
            final(self).wf(),
            match r {
                Ok(()) => find_container(old(self)@, name@) is None && final(self)@ == old(
                    self,
                )@.push(fresh_container(name@)),
                Err(e) => e == StoreError::ContainerExists && find_container(old(self)@, name@)
                    is Some && final(self)@ == old(self)@,
            },
    {
        proof {
            lemma_find_container(self@, name@);
        }
        match self.find_index(name) {
            Some(_) => Err(StoreError::ContainerExists),
            None => {
                let c = Container {
                    name: name.clone(),
                    lock_on_sleep: false,
                    lock_interval_seconds: None,
                    records: Vec::new(),
                };
                let ghost pre = self@;
                self.containers.push(c);
                proof {
                    assert(self@ =~~= pre.push(fresh_container(name@)));
                    assert forall|i: int, j: int| 0 <= i < j < self@.len() implies self@[i].name
                        != self@[j].name by {
                        if j == pre.len() {
                            assert(pre[i].name != name@);
                        }
                    }
                }
                Ok(())
            },
        }
    }

    /// Resolves the named container to its position. Fails with `NotFound`
    /// exactly when no container bears the name.
    pub fn open_container(&self, name: &String) -> (r: Result<usize, StoreError>)
        ensures
            match r {
                Ok(i) => find_container(self@, name@) == Some(i as int),
                Err(e) => e == StoreError::NotFound && find_container(self@, name@) is None,
            },
    {
        match self.find_index(name) {
            Some(i) => Ok(i),
            None => Err(StoreError::NotFound),
        }
    }

    /// The position of the first container bearing the name.
    fn find_index(&self, name: &String) -> (r: Option<usize>)
        ensures
            match r {
                Some(i) => find_container(self@, name@) == Some(i as int),
                None => find_container(self@, name@) is None,
            },
    {
        let n = self.containers.len();
        let mut i: usize = 0;
        while i < n
            invariant
                n == self.containers.len(),
                i <= n,
                forall|j: int| 0 <= j < i ==> self@[j].name != name@,
            decreases n - i,
        {
            if self.containers[i].name == *name {
                proof {
                    assert(self@[i as int].name == name@);
                    lemma_find_container(self@, name@);
                    match find_container(self@, name@) {
                        Some(k) => {
                            assert(!(k < i) && !(i < k));
                        },
                        None => {
                            assert(false);
                        },
                    }
                }
                return Some(i);
            }
            i += 1;
        }
        proof {
            lemma_find_container(self@, name@);
        }
        None
    }

    /// Sets the container's locking policy; a side effect only.
    pub fn set_settings(&mut self, idx: usize, lock_on_sleep: bool, lock_interval_seconds: Option<
        u32,
    >)
        requires
            idx < old(self)@.len(),
        ensures
            final(self)@ == old(self)@.update(
                idx as int,
                ContainerView {
                    lock_on_sleep,
                    lock_interval_seconds,
                    ..old(self)@[idx as int]
                },
            ),
    {
        let ghost pre = self@;
        let c = &mut self.containers[idx];
        c.lock_on_sleep = lock_on_sleep;
        c.lock_interval_seconds = lock_interval_seconds;
        proof {
            assert(final(self)@ =~= pre.update(
                idx as int,
                ContainerView { lock_on_sleep, lock_interval_seconds, ..pre[idx as int] },
            ));
        }
    }

    /// Searches one container's records: the matches for the label filter in
    /// stored order, cut off at the limit when one is given. No match yields
    /// an empty result, never an error.
    pub fn search(&self, idx: usize, label: Option<&String>, limit: Option<usize>) -> (r: Vec<
        SecretRecord,
    >)
        requires
            idx < self@.len(),
        ensures
            views_of(r@) == search_spec(self@[idx as int].records, opt_label_view(label), limit),
    {
        proof {
            reveal(Seq::filter);
        }
        let records = &self.containers[idx].records;
        let ghost rv = self@[idx as int].records;
        let n = records.len();
        let mut out: Vec<SecretRecord> = Vec::new();
        let mut i: usize = 0;
        while i < n
            invariant
                n == records.len(),
                i <= n,
                rv == views_of(records@),
                views_of(out@) == rv.take(i as int).filter(label_matches(opt_label_view(label))),
            decreases n - i,
        {
            let rec = &records[i];
            let keep = match label {
                Some(l) => rec.label == *l,
                None => true,
            };
            let ghost pre = views_of(out@);
            if keep {
                out.push(rec.duplicate());
            }
            proof {
                reveal(Seq::filter);
                let p = label_matches(opt_label_view(label));
                assert(rv.take(i + 1).drop_last() =~= rv.take(i as int));
                assert(rv.take(i + 1).last() == rv[i as int]);
                assert(rv[i as int] == rec@);
                assert(keep == p(rec@));
                if keep {
                    assert(views_of(out@) =~= pre.push(rec@));
                }
                assert(views_of(out@) =~= rv.take(i + 1).filter(p));
            }
            i += 1;
        }
        proof {
            assert(rv.take(n as int) =~= rv);
        }
        match limit {
            Some(l) => if out.len() > l {
                out.truncate(l);
                proof {
                    assert(views_of(out@) =~= rv.filter(label_matches(opt_label_view(label))).take(
                        l as int,
                    ));
                }
            },
            None => {},
        }
        out
    }

    /// Inserts one new record into the container. Duplicate labels are
    /// allowed: the store does not enforce label uniqueness, and a later
    /// search may return several records for one label.
    pub fn insert(&mut self, idx: usize, label: String, account: String, secret_data: String)
        requires
            idx < old(self)@.len(),
        ensures
            final(self)@ == old(self)@.update(
                idx as int,
                ContainerView {
                    records: old(self)@[idx as int].records.push(
                        RecordView { label: label@, account: account@, secret_data: secret_data@ },
                    ),
                    ..old(self)@[idx as int]
                },
            ),
    {
        let ghost pre = self@;
        let ghost rv = RecordView { label: label@, account: account@, secret_data: secret_data@ };
        let c = &mut self.containers[idx];
        c.records.push(SecretRecord { label, account, secret_data });
        proof {
            assert(views_of(final(c).records@) =~= pre[idx as int].records.push(rv));
            assert(final(self)@ =~= pre.update(
                idx as int,
                ContainerView { records: pre[idx as int].records.push(rv), ..pre[idx as int] },
            ));
        }
    }

    /// Deletes the record identified exactly by the (label, account) pair —
    /// the first such record where duplicates exist. Fails with `NotFound`,
    /// changing nothing, exactly when no record has that identity.
    pub fn delete_by_identity(&mut self, idx: usize, label: &String, account: &String) -> (r:
        Result<(), StoreError>)
        requires
            idx < old(self)@.len(),
        ensures
            match r {
                Ok(()) => ({
                    let rv = old(self)@[idx as int].records;
                    let m = first_match_index(rv, identity_matches(label@, account@));
                    &&& m is Some
                    &&& final(self)@ == old(self)@.update(
                        idx as int,
                        ContainerView { records: rv.remove(m->Some_0), ..old(self)@[idx as int] },
                    )
                }),
                Err(e) => e == StoreError::NotFound && first_match_index(
                    old(self)@[idx as int].records,
                    identity_matches(label@, account@),
                ) is None && final(self)@ == old(self)@,
            },
    {
        let found = find_identity_index(&self.containers[idx].records, label, account);
        match found {
            Some(i) => {
                let ghost pre = self@;
                let ghost rv = self@[idx as int].records;
                proof {
                    lemma_first_match_index(rv, identity_matches(label@, account@));
                }
                let c = &mut self.containers[idx];
                c.records.remove(i);
                proof {
                    assert(views_of(final(c).records@) =~= rv.remove(i as int));
                    assert(final(self)@ =~= pre.update(
                        idx as int,
                        ContainerView { records: rv.remove(i as int), ..pre[idx as int] },
                    ));
                }
                Ok(())
            },
            None => Err(StoreError::NotFound),
        }
    }
}

/// The position of the first record with the exact (label, account) identity.
fn find_identity_index(records: &Vec<SecretRecord>, label: &String, account: &String) -> (r:
    Option<usize>)
    ensures
        match r {
            Some(i) => first_match_index(views_of(records@), identity_matches(label@, account@))
                == Some(i as int),
            None => first_match_index(views_of(records@), identity_matches(label@, account@))
                is None,
        },
{
    let ghost rv = views_of(records@);
    let ghost q = identity_matches(label@, account@);
    let n = records.len();
    let mut i: usize = 0;
    while i < n
        invariant
            n == records.len(),
            rv == views_of(records@),
            q == identity_matches(label@, account@),
            i <= n,
            forall|j: int| 0 <= j < i ==> !q(rv[j]),
        decreases n - i,
    {
        let rec = &records[i];
        if rec.label == *label && rec.account == *account {
            proof {
                lemma_first_match_index(rv, q);
                assert(q(rv[i as int]));
                match first_match_index(rv, q) {
                    Some(k) => {
                        assert(!(k < i) && !(i < k));
                    },
                    None => {
                        assert(false);
                    },
                }
            }
            return Some(i);
        }
        i += 1;
    }
    proof {
        lemma_first_match_index(rv, q);
        match first_match_index(rv, q) {
            Some(k) => {
                assert(!q(rv[k]));
            },
            None => {},
        }
    }
    None
}

/// The view of an optional borrowed label filter.
pub open spec fn opt_label_view(o: Option<&String>) -> Option<Seq<char>> {
    match o {
        Some(s) => Some(s@),
        None => None,
    }
}

} // verus!
