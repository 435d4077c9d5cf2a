//! Command orchestration: the five terminal use-cases — `init`, `list`,
//! `get`, `add`, `remove` — each one pass over the store. Every command
//! resolves the well-known container name first; `get` pipes each matching
//! record through the credential codec; `remove` follows the two-step
//! resolve-then-delete protocol, record identity being the (label, account)
//! pair.

use vstd::prelude::*;
use vstd::seq_lib::*;

use crate::codec::{decode, decoded, encode_to_json_pretty, json_pretty};
use crate::error::StoreError;
use crate::store::{
    find_container, first_match_index, identity_matches, label_differs, label_matches,
    lemma_delete_first_label_match, lemma_find_container, lemma_find_same_names,
    lemma_first_identity_is_first_label, lemma_no_label_match, search_spec, views_of,
    ContainerView, RecordView, StoreState,
};

verus! {

/// How many records a listing fetches at most.
pub const LIST_LIMIT: usize = 100;

/// The auto-lock interval initialization applies, in seconds.
pub const LOCK_INTERVAL_SECONDS: u32 = 300;

/// The well-known container name this tool keeps its records under.
pub fn default_container_name() -> (s: &'static str)
    ensures
        s@ == "aws-credlock"@,
{
    "aws-credlock"
}

/// The views of a run of owned strings.
pub open spec fn texts_of(v: Seq<String>) -> Seq<Seq<char>> {
    v.map_values(|s: String| s@)
}

/// A container as initialization leaves it: empty, locking on sleep, with the
/// fixed auto-lock interval.
pub open spec fn init_container(name: Seq<char>) -> ContainerView {
    ContainerView {
        name,
        lock_on_sleep: true,
        lock_interval_seconds: Some(LOCK_INTERVAL_SECONDS),
        records: Seq::empty(),
    }
}

/// What initialization does to the store: a fresh configured container under
/// the name, or `ContainerExists` when the name is already taken.
pub open spec fn init_spec(s: Seq<ContainerView>, name: Seq<char>) -> Result<
    Seq<ContainerView>,
    StoreError,
> {
    if find_container(s, name) is Some {
        Err(StoreError::ContainerExists)
    } else {
        Ok(s.push(init_container(name)))
    }
}

/// What listing yields: the labels of the first hundred records, in stored
/// order, or `NotFound` when the container is absent.
pub open spec fn list_spec(s: Seq<ContainerView>, name: Seq<char>) -> Result<
    Seq<Seq<char>>,
    StoreError,
> {
    match find_container(s, name) {
        Some(i) => Ok(
            search_spec(s[i].records, None, Some(LIST_LIMIT)).map_values(|r: RecordView| r.label),
        ),
        None => Err(StoreError::NotFound),
    }
}

/// The credential document one stored record stands for.
pub open spec fn record_document(r: RecordView) -> Seq<char> {
    json_pretty(decoded(Some(r.account), Some(r.secret_data)))
}

/// What fetching yields: one pretty-printed credential document per record of
/// the profile, in stored order — zero matches yield zero documents, not an
/// error — or `NotFound` when the container is absent.
pub open spec fn get_spec(s: Seq<ContainerView>, name: Seq<char>, profile: Seq<char>) -> Result<
    Seq<Seq<char>>,
    StoreError,
> {
    match find_container(s, name) {
        Some(i) => Ok(
            search_spec(s[i].records, Some(profile), None).map_values(
                |r: RecordView| record_document(r),
            ),
        ),
        None => Err(StoreError::NotFound),
    }
}

/// The record an addition stores.
pub open spec fn added_record(
    profile: Seq<char>,
    access_key_id: Seq<char>,
    secret_access_key: Seq<char>,
) -> RecordView {
    RecordView { label: profile, account: access_key_id, secret_data: secret_access_key }
}

/// What adding does to the store: one record appended to the container, or
/// `NotFound` when the container is absent.
pub open spec fn add_spec(
    s: Seq<ContainerView>,
    name: Seq<char>,
    profile: Seq<char>,
    access_key_id: Seq<char>,
    secret_access_key: Seq<char>,
) -> Result<Seq<ContainerView>, StoreError> {
    match find_container(s, name) {
        Some(i) => Ok(
            s.update(
                i,
                ContainerView {
                    records: s[i].records.push(
                        added_record(profile, access_key_id, secret_access_key),
                    ),
                    ..s[i]
                },
            ),
        ),
        None => Err(StoreError::NotFound),
    }
}

/// What removing does to the store: every record of the profile deleted, or
/// `NotFound` when the container is absent or the profile has no record.
pub open spec fn remove_spec(s: Seq<ContainerView>, name: Seq<char>, profile: Seq<char>) -> Result<
    Seq<ContainerView>,
    StoreError,
> {
    match find_container(s, name) {
        Some(i) => if s[i].records.filter(label_matches(Some(profile))).len() == 0 {
            Err(StoreError::NotFound)
        } else {
            Ok(
                s.update(
                    i,
                    ContainerView { records: s[i].records.filter(label_differs(profile)), ..s[i] },
                ),
            )
        },
        None => Err(StoreError::NotFound),
    }
}

/// Initializes the key store: creates the named container and applies the
/// locking policy (lock on sleep, five-minute auto-lock). Running it against
/// an existing container fails with `ContainerExists` and changes nothing.
pub fn init(store: &mut StoreState, name: &String) -> (r: Result<(), StoreError>)
    requires
        old(store).wf(),
    ensures
        final(store).wf(),
        match r {
            Ok(()) => init_spec(old(store)@, name@) == Ok::<Seq<ContainerView>, StoreError>(
                final(store)@,
            ),
            Err(e) => init_spec(old(store)@, name@) == Err::<Seq<ContainerView>, StoreError>(e)
                && final(store)@ == old(store)@,
        },
{
    match store.create_container(name) {
        Err(e) => Err(e),
        Ok(()) => {
            let ghost pushed = store@;
            proof {
                lemma_find_container(pushed, name@);
                match find_container(pushed, name@) {
                    Some(_) => {},
                    None => {
                        assert(pushed[pushed.len() - 1].name == name@);
                        assert(false);
                    },
                }
            }
            match store.open_container(name) {
                Ok(i) => {
                    proof {
                        lemma_find_container(pushed, name@);
                        let k = find_container(pushed, name@)->Some_0;
                        lemma_find_container(old(store)@, name@);
                        assert(pushed[pushed.len() - 1].name == name@);
                        assert forall|j: int| 0 <= j < pushed.len() - 1 implies pushed[j].name
                            != name@ by {
                            assert(pushed[j] == old(store)@[j]);
                        }
                        assert(k == pushed.len() - 1);
                    }
                    store.set_settings(i, true, Some(LOCK_INTERVAL_SECONDS));
                    proof {
                        assert(store@ =~~= old(store)@.push(init_container(name@)));
                        assert forall|a: int, b: int|
                            0 <= a < b < store@.len() implies store@[a].name != store@[b].name by {
                            assert(store@[a].name == pushed[a].name);
                            assert(store@[b].name == pushed[b].name);
                        }
                    }
                    Ok(())
                },
                Err(e) => {
                    proof {
                        assert(false);
                    }
                    Err(e)
                },
            }
        },
    }
}

/// Lists the stored profiles: the label of each record in the container, in
/// stored order, at most a hundred of them.
pub fn list(store: &StoreState, name: &String) -> (r: Result<Vec<String>, StoreError>)
    ensures
        match r {
            Ok(labels) => list_spec(store@, name@) == Ok::<Seq<Seq<char>>, StoreError>(
                texts_of(labels@),
            ),
            Err(e) => list_spec(store@, name@) == Err::<Seq<Seq<char>>, StoreError>(e),
        },
{
    let idx = match store.open_container(name) {
        Ok(i) => i,
        Err(e) => {
            return Err(e);
        },
    };
    proof {
        lemma_find_container(store@, name@);
    }
    let matches = store.search(idx, None, Some(LIST_LIMIT));
    let ghost found = search_spec(
        store@[idx as int].records,
        None,
        Some(LIST_LIMIT),
    );
    let n = matches.len();
    let mut labels: Vec<String> = Vec::new();
    let mut k: usize = 0;
    while k < n
        invariant
            n == matches.len(),
            k <= n,
            found == views_of(matches@),
            texts_of(labels@) == found.take(k as int).map_values(|r: RecordView| r.label),
        decreases n - k,
    {
        let ghost pre = texts_of(labels@);
        labels.push(matches[k].label.clone());
        proof {
            assert(found.take(k + 1).drop_last() =~= found.take(k as int));
            assert(found[k as int] == matches@[k as int]@);
            assert(texts_of(labels@) =~= pre.push(matches@[k as int].label@));
            assert(texts_of(labels@) =~= found.take(k + 1).map_values(|r: RecordView| r.label));
        }
        k += 1;
    }
    proof {
        assert(found.take(n as int) =~= found);
        assert(texts_of(labels@) == found.map_values(|r: RecordView| r.label));
    }
    Ok(labels)
}

/// Fetches a profile's credentials: one pretty-printed JSON document per
/// matching record, in stored order. Zero matches yield zero documents,
/// which is success, not an error.
pub fn get(store: &StoreState, name: &String, profile: &String) -> (r: Result<
    Vec<String>,
    StoreError,
>)
    ensures
        match r {
            Ok(docs) => get_spec(store@, name@, profile@) == Ok::<Seq<Seq<char>>, StoreError>(
                texts_of(docs@),
            ),
            Err(e) => get_spec(store@, name@, profile@) == Err::<Seq<Seq<char>>, StoreError>(e),
        },
{
    let idx = match store.open_container(name) {
        Ok(i) => i,
        Err(e) => {
            return Err(e);
        },
    };
    proof {
        lemma_find_container(store@, name@);
    }
    let matches = store.search(idx, Some(profile), None);
    let ghost found = search_spec(store@[idx as int].records, Some(profile@), None);
    let n = matches.len();
    let mut docs: Vec<String> = Vec::new();
    let mut k: usize = 0;
    while k < n
        invariant
            n == matches.len(),
            k <= n,
            found == views_of(matches@),
            texts_of(docs@) == found.take(k as int).map_values(|r: RecordView| record_document(r)),
        decreases n - k,
    {
        let ghost pre = texts_of(docs@);
        let c = decode(Some(matches[k].account.clone()), Some(matches[k].secret_data.clone()));
        let doc = encode_to_json_pretty(&c);
        docs.push(doc);
        proof {
            assert(found.take(k + 1).drop_last() =~= found.take(k as int));
            assert(found[k as int] == matches@[k as int]@);
            assert(texts_of(docs@) =~= pre.push(record_document(found[k as int])));
            assert(texts_of(docs@) =~= found.take(k + 1).map_values(
                |r: RecordView| record_document(r),
            ));
        }
        k += 1;
    }
    proof {
        assert(found.take(n as int) =~= found);
        assert(texts_of(docs@) == found.map_values(|r: RecordView| record_document(r)));
    }
    Ok(docs)
}

/// Stores one set of credentials under the profile. The interactive layer
/// owes non-empty key text; the store does not enforce label uniqueness, so
/// adding an existing profile again yields a second record, not an error.
pub fn add_credentials(
    store: &mut StoreState,
    name: &String,
    profile: &String,
    access_key_id: &String,
    secret_access_key: &String,
) -> (r: Result<(), StoreError>)
    requires
        old(store).wf(),
        access_key_id@.len() > 0,
        secret_access_key@.len() > 0,
    ensures
        final(store).wf(),
        match r {
            Ok(()) => add_spec(old(store)@, name@, profile@, access_key_id@, secret_access_key@)
                == Ok::<Seq<ContainerView>, StoreError>(final(store)@),
            Err(e) => add_spec(old(store)@, name@, profile@, access_key_id@, secret_access_key@)
                == Err::<Seq<ContainerView>, StoreError>(e) && final(store)@ == old(store)@,
        },
{
    let idx = match store.open_container(name) {
        Ok(i) => i,
        Err(e) => {
            return Err(e);
        },
    };
    proof {
        lemma_find_container(store@, name@);
    }
    store.insert(idx, profile.clone(), access_key_id.clone(), secret_access_key.clone());
    proof {
        assert(store@ =~~= add_spec(
            old(store)@,
            name@,
            profile@,
            access_key_id@,
            secret_access_key@,
        )->Ok_0);
        assert forall|a: int, b: int| 0 <= a < b < store@.len() implies store@[a].name
            != store@[b].name by {
            assert(store@[a].name == old(store)@[a].name);
            assert(store@[b].name == old(store)@[b].name);
        }
    }
    Ok(())
}

/// Removes every record of the profile, by the two-step protocol: search for
/// the profile's records, then delete each one by its resolved (label,
/// account) identity. A profile with no record fails with `NotFound` and
/// changes nothing.
pub fn remove_credentials(store: &mut StoreState, name: &String, profile: &String) -> (r: Result<
    (),
    StoreError,
>)
    requires
        old(store).wf(),
    ensures
        final(store).wf(),
        match r {
            Ok(()) => remove_spec(old(store)@, name@, profile@) == Ok::<
                Seq<ContainerView>,
                StoreError,
            >(final(store)@),
            Err(e) => remove_spec(old(store)@, name@, profile@) == Err::<
                Seq<ContainerView>,
                StoreError,
            >(e) && final(store)@ == old(store)@,
        },
{
    let idx = match store.open_container(name) {
        Ok(i) => i,
        Err(e) => {
            return Err(e);
        },
    };
    proof {
        lemma_find_container(store@, name@);
    }
    let ghost rv0 = store@[idx as int].records;
    let ghost p = label_matches(Some(profile@));
    let ghost np = label_differs(profile@);
    let matches = store.search(idx, Some(profile), None);
    if matches.len() == 0 {
        proof {
            assert(views_of(matches@).len() == 0);
            assert(rv0.filter(p).len() == 0);
        }
        return Err(StoreError::NotFound);
    }
    let n = matches.len();
    let mut k: usize = 0;
    while k < n
        invariant
            old(store).wf(),
            n == matches.len(),
            k <= n,
            p == label_matches(Some(profile@)),
            np == label_differs(profile@),
            rv0 == old(store)@[idx as int].records,
            views_of(matches@) == rv0.filter(p),
            idx < old(store)@.len(),
            store@ == old(store)@.update(
                idx as int,
                ContainerView { records: store@[idx as int].records, ..old(store)@[idx as int] },
            ),
            store@[idx as int].records.filter(p) == rv0.filter(p).skip(k as int),
            store@[idx as int].records.filter(np) == rv0.filter(np),
        decreases n - k,
    {
        let account = matches[k].account.clone();
        let ghost cur = store@[idx as int].records;
        proof {
            match first_match_index(cur, p) {
                Some(_) => {},
                None => {
                    lemma_no_label_match(cur, profile@);
                    assert(rv0.filter(p).skip(k as int).len() == 0);
                    assert(rv0.filter(p)[k as int] == views_of(matches@)[k as int]);
                    assert(false);
                },
            }
            lemma_delete_first_label_match(cur, profile@);
            let i = first_match_index(cur, p)->Some_0;
            assert(rv0.filter(p).skip(k as int)[0] == rv0.filter(p)[k as int]);
            assert(cur[i] == views_of(matches@)[k as int]);
            assert(cur[i].account == account@);
            lemma_first_identity_is_first_label(cur, profile@);
            assert(first_match_index(cur, identity_matches(profile@, account@)) == Some(i));
        }
        match store.delete_by_identity(idx, profile, &account) {
            Ok(()) => {
                proof {
                    let i = first_match_index(cur, p)->Some_0;
                    assert(store@[idx as int].records == cur.remove(i));
                    assert(cur.remove(i).filter(p) == cur.filter(p).skip(1));
                    assert(rv0.filter(p).skip(k as int).skip(1) =~= rv0.filter(p).skip(k + 1));
                    assert(store@ =~~= old(store)@.update(
                        idx as int,
                        ContainerView {
                            records: store@[idx as int].records,
                            ..old(store)@[idx as int]
                        },
                    ));
                }
            },
            Err(e) => {
                proof {
                    assert(false);
                }
                return Err(e);
            },
        }
        k += 1;
    }
    proof {
        let cur = store@[idx as int].records;
        assert(rv0.filter(p).len() == n);
        assert(cur.filter(p) =~= Seq::<RecordView>::empty());
        match first_match_index(cur, p) {
            Some(_) => {
                lemma_delete_first_label_match(cur, profile@);
                assert(false);
            },
            None => {},
        }
        lemma_no_label_match(cur, profile@);
        assert(cur == rv0.filter(np));
        assert(store@ =~~= remove_spec(old(store)@, name@, profile@)->Ok_0);
        assert forall|a: int, b: int| 0 <= a < b < store@.len() implies store@[a].name
            != store@[b].name by {
            assert(store@[a].name == old(store)@[a].name);
            assert(store@[b].name == old(store)@[b].name);
        }
    }
    Ok(())
}

/// Law: adding a profile's credentials and then fetching that profile yields
/// at least one document, the last of which is exactly the document for the
/// added access key and secret key.
pub proof fn lemma_add_then_get(
    s: Seq<ContainerView>,
    name: Seq<char>,
    profile: Seq<char>,
    access_key_id: Seq<char>,
    secret_access_key: Seq<char>,
)
    requires
        add_spec(s, name, profile, access_key_id, secret_access_key) is Ok,
    ensures
        ({
            let s1 = add_spec(s, name, profile, access_key_id, secret_access_key)->Ok_0;
            &&& get_spec(s1, name, profile) is Ok
            &&& get_spec(s1, name, profile)->Ok_0.len() > 0
            &&& get_spec(s1, name, profile)->Ok_0.last() == json_pretty(
                decoded(Some(access_key_id), Some(secret_access_key)),
            )
        }),
{
    let i = find_container(s, name)->Some_0;
    let s1 = add_spec(s, name, profile, access_key_id, secret_access_key)->Ok_0;
    let added = added_record(profile, access_key_id, secret_access_key);
    lemma_find_container(s, name);
    assert(forall|j: int| 0 <= j < s.len() ==> s1[j].name == s[j].name);
    lemma_find_same_names(s, s1, name);
    let p = label_matches(Some(profile));
    let rv = s[i].records;
    assert(s1[i].records == rv.push(added));
    let m1 = s1[i].records.filter(p);
    assert(m1 == rv.filter(p) + seq![added]) by {
        reveal(Seq::filter);
        assert(rv.push(added) =~= rv + seq![added]);
        Seq::filter_distributes_over_add(rv, seq![added], p);
        assert(seq![added].drop_last() =~= Seq::<RecordView>::empty());
        assert(seq![added].filter(p) =~= seq![added]);
    };
    assert(m1.len() > 0);
    assert(m1.last() == added);
    let docs = m1.map_values(|r: RecordView| record_document(r));
    assert(docs.len() == m1.len());
    assert(docs.last() == record_document(added));
}

/// Law: adding a profile, then removing that profile, then fetching it
/// yields zero documents.
#[verifier::rlimit(100)]
pub proof fn lemma_add_remove_get(
    s: Seq<ContainerView>,
    name: Seq<char>,
    profile: Seq<char>,
    access_key_id: Seq<char>,
    secret_access_key: Seq<char>,
)
    requires
        add_spec(s, name, profile, access_key_id, secret_access_key) is Ok,
    ensures
        ({
            let s1 = add_spec(s, name, profile, access_key_id, secret_access_key)->Ok_0;
            &&& remove_spec(s1, name, profile) is Ok
            &&& get_spec(remove_spec(s1, name, profile)->Ok_0, name, profile) == Ok::<
                Seq<Seq<char>>,
                StoreError,
            >(Seq::<Seq<char>>::empty())
        }),
{
    let i = find_container(s, name)->Some_0;
    let s1 = add_spec(s, name, profile, access_key_id, secret_access_key)->Ok_0;
    let added = added_record(profile, access_key_id, secret_access_key);
    lemma_find_container(s, name);
    assert(forall|j: int| 0 <= j < s.len() ==> s1[j].name == s[j].name);
    lemma_find_same_names(s, s1, name);
    let p = label_matches(Some(profile));
    let np = label_differs(profile);
    let rv = s[i].records;
    assert(s1[i].records == rv.push(added));
    assert(s1[i].records.filter(p) == rv.filter(p) + seq![added]) by {
        reveal(Seq::filter);
        assert(rv.push(added) =~= rv + seq![added]);
        Seq::filter_distributes_over_add(rv, seq![added], p);
        assert(seq![added].drop_last() =~= Seq::<RecordView>::empty());
        assert(seq![added].filter(p) =~= seq![added]);
    };
    assert(s1[i].records.filter(p).len() > 0);
    let s2 = remove_spec(s1, name, profile)->Ok_0;
    let kept = s1[i].records.filter(np);
    assert(s2 == s1.update(i, ContainerView { records: kept, ..s1[i] }));
    assert(forall|j: int| 0 <= j < s1.len() ==> s2[j].name == s1[j].name);
    lemma_find_same_names(s1, s2, name);
    assert forall|j: int| 0 <= j < kept.len() implies !p(kept[j]) by {
        s1[i].records.lemma_filter_pred(np, j);
    }
    kept.lemma_all_neg_filter_empty(p);
    assert(kept.filter(p) =~= Seq::<RecordView>::empty());
    assert(get_spec(s2, name, profile)->Ok_0 =~= Seq::<Seq<char>>::empty());
}

/// Law: initializing the same container name twice fails the second time
/// with `ContainerExists`, leaving the store as the first run left it.
pub proof fn lemma_init_twice(s: Seq<ContainerView>, name: Seq<char>)
    requires
        init_spec(s, name) is Ok,
    ensures
        init_spec(init_spec(s, name)->Ok_0, name) == Err::<Seq<ContainerView>, StoreError>(
            StoreError::ContainerExists,
        ),
{
    let s1 = init_spec(s, name)->Ok_0;
    lemma_find_container(s1, name);
    match find_container(s1, name) {
        Some(_) => {},
        None => {
            assert(s1[s1.len() - 1].name == name);
            assert(false);
        },
    }
}

} // verus!
