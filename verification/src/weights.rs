//! Maps from the names of a checkpoint to its weights.

use vstd::prelude::*;

use crate::buffer::reserve_or_error;
use crate::error::{Error, ErrorModel, KeyPayload};
use crate::text::{self, after_prefix, contains_text, same_text};

verus! {

/// The weight of a name among some entries, where there is one.
spec fn lookup<W>(entries: Seq<(String, W)>, key: Seq<char>) -> Option<W>
    decreases entries.len(),
{
    if entries.len() == 0 {
        None
    } else if entries.last().0@ == key {
        Some(entries.last().1)
    } else {
        lookup(entries.drop_last(), key)
    }
}

/// Whether no name stands twice among some entries.
spec fn distinct<W>(entries: Seq<(String, W)>) -> bool {
    forall|i: int, j: int|
        0 <= i < j < entries.len() ==> (#[trigger] entries[i]).0@ != (#[trigger] entries[j]).0@
}

spec fn as_map<W>(entries: Seq<(String, W)>) -> Map<Seq<char>, W> {
    Map::new(
        |key: Seq<char>| lookup(entries, key) is Some,
        |key: Seq<char>| lookup(entries, key)->Some_0,
    )
}

/// The weights of a checkpoint by their names.
#[derive(Debug)]
pub struct WeightMap<W> {
    entries: Vec<(String, W)>,
}

impl<W> View for WeightMap<W> {
    type V = Map<Seq<char>, W>;

    closed spec fn view(&self) -> Map<Seq<char>, W> {
        as_map(self.entries@)
    }
}

proof fn lemma_lookup_found<W>(entries: Seq<(String, W)>, key: Seq<char>)
    requires
        lookup(entries, key) is Some,
    ensures
        exists|i: int| 0 <= i < entries.len() && (#[trigger] entries[i]).0@ == key,
    decreases entries.len(),
{
    if entries.last().0@ == key {
        assert(entries[entries.len() - 1].0@ == key);
    } else {
        lemma_lookup_found(entries.drop_last(), key);
        let i = choose|i: int|
            0 <= i < entries.drop_last().len() && (#[trigger] entries.drop_last()[i]).0@ == key;
        assert(entries[i].0@ == key);
    }
}

proof fn lemma_lookup_at<W>(entries: Seq<(String, W)>, i: int)
    requires
        distinct(entries),
        0 <= i < entries.len(),
    ensures
        lookup(entries, entries[i].0@) == Some(entries[i].1),
    decreases entries.len(),
{
    if i < entries.len() - 1 {
        assert(entries.drop_last()[i] == entries[i]);
        assert(distinct(entries.drop_last())) by {
            assert forall|a: int, b: int| 0 <= a < b < entries.drop_last().len() implies (
            #[trigger] entries.drop_last()[a]).0@ != (#[trigger] entries.drop_last()[b]).0@ by {
                assert(entries[a].0@ != entries[b].0@);
            }
        }
        lemma_lookup_at(entries.drop_last(), i);
        assert(entries[i].0@ != entries[entries.len() - 1].0@);
    }
}

proof fn lemma_lookup_missing<W>(entries: Seq<(String, W)>, key: Seq<char>)
    requires
        forall|i: int| 0 <= i < entries.len() ==> (#[trigger] entries[i]).0@ != key,
    ensures
        lookup(entries, key) is None,
{
    if lookup(entries, key) is Some {
        lemma_lookup_found(entries, key);
    }
}

proof fn lemma_lookup_removed<W>(entries: Seq<(String, W)>, i: int, key: Seq<char>)
    requires
        distinct(entries),
        0 <= i < entries.len(),
    ensures
        lookup(entries.remove(i), key) == (if key == entries[i].0@ {
            None
        } else {
            lookup(entries, key)
        }),
        distinct(entries.remove(i)),
    decreases entries.len(),
{
    let rest = entries.remove(i);
    assert(distinct(rest)) by {
        assert forall|a: int, b: int| 0 <= a < b < rest.len() implies (#[trigger] rest[a]).0@ != (
        #[trigger] rest[b]).0@ by {
            let x = if a < i {
                a
            } else {
                a + 1
            };
            let y = if b < i {
                b
            } else {
                b + 1
            };
            assert(rest[a] == entries[x]);
            assert(rest[b] == entries[y]);
        }
    }
    if i == entries.len() - 1 {
        assert(rest =~= entries.drop_last());
        if key == entries[i].0@ {
            lemma_lookup_missing(rest, key);
        }
    } else {
        assert(distinct(entries.drop_last())) by {
            assert forall|a: int, b: int| 0 <= a < b < entries.drop_last().len() implies (
            #[trigger] entries.drop_last()[a]).0@ != (#[trigger] entries.drop_last()[b]).0@ by {
                assert(entries[a].0@ != entries[b].0@);
            }
        }
        lemma_lookup_removed(entries.drop_last(), i, key);
        assert(rest.drop_last() =~= entries.drop_last().remove(i));
        assert(rest.last() == entries.last());
        assert(entries[i].0@ != entries[entries.len() - 1].0@);
    }
}

proof fn lemma_pushed<W>(entries: Seq<(String, W)>, entry: (String, W))
    requires
        distinct(entries),
        lookup(entries, entry.0@) is None,
    ensures
        distinct(entries.push(entry)),
        as_map(entries.push(entry)) == as_map(entries).insert(entry.0@, entry.1),
{
    let all = entries.push(entry);
    assert(all.drop_last() =~= entries);
    assert forall|a: int, b: int| 0 <= a < b < all.len() implies (#[trigger] all[a]).0@ != (
    #[trigger] all[b]).0@ by {
        if b == entries.len() {
            lemma_lookup_at(entries, a);
        } else {
            assert(entries[a].0@ != entries[b].0@);
        }
    }
    assert(as_map(all) =~= as_map(entries).insert(entry.0@, entry.1)) by {
        assert forall|key: Seq<char>| lookup(all, key) == (if key == entry.0@ {
            Some(entry.1)
        } else {
            lookup(entries, key)
        }) by {}
    }
}

proof fn lemma_count<W>(entries: Seq<(String, W)>)
    requires
        distinct(entries),
    ensures
        as_map(entries).dom().finite(),
        as_map(entries).dom().len() == entries.len(),
    decreases entries.len(),
{
    if entries.len() == 0 {
        assert(as_map(entries).dom() =~= Set::<Seq<char>>::empty());
    } else {
        let rest = entries.drop_last();
        let last = entries.last();
        assert(distinct(rest)) by {
            assert forall|a: int, b: int| 0 <= a < b < rest.len() implies (#[trigger] rest[a]).0@
                != (#[trigger] rest[b]).0@ by {
                assert(entries[a].0@ != entries[b].0@);
            }
        }
        assert forall|i: int| 0 <= i < rest.len() implies (#[trigger] rest[i]).0@ != last.0@ by {
            assert(entries[i].0@ != entries[entries.len() - 1].0@);
        }
        lemma_count(rest);
        lemma_lookup_missing(rest, last.0@);
        lemma_pushed(rest, last);
        assert(rest.push(last) =~= entries);
        assert(as_map(entries).dom() =~= as_map(rest).dom().insert(last.0@));
    }
}

/// A weight and what is left, or the refusal of a name that is not there.
pub open spec fn taken<W>(
    weights: Map<Seq<char>, W>,
    context: &'static str,
    key: Seq<char>,
) -> Result<(W, Map<Seq<char>, W>), ErrorModel> {
    if weights.contains_key(key) {
        Ok((weights[key], weights.remove(key)))
    } else {
        Err(ErrorModel::MissingKey { context, key })
    }
}

/// A weight that a flag governs and what is left, or the refusal: it has to be
/// there where the flag is set, and must not be there where it is not.
pub open spec fn gated<W>(
    weights: Map<Seq<char>, W>,
    context: &'static str,
    flag: bool,
    key: Seq<char>,
) -> Result<(Option<W>, Map<Seq<char>, W>), ErrorModel> {
    if flag {
        match taken(weights, context, key) {
            Ok((weight, rest)) => Ok((Some(weight), rest)),
            Err(e) => Err(e),
        }
    } else if weights.contains_key(key) {
        Err(ErrorModel::KeyCollision { context, key })
    } else {
        Ok((None, weights))
    }
}

/// Whether every entry of `part` is an entry of `whole`.
pub open spec fn is_part<W>(part: Map<Seq<char>, W>, whole: Map<Seq<char>, W>) -> bool {
    forall|key: Seq<char>| #[trigger]
        part.contains_key(key) ==> whole.contains_key(key) && whole[key] == part[key]
}

/// Whether what was taken, and what is left, is what was to be taken and left.
/// Nothing is added, and after a refusal some of what was there may be gone.
pub open spec fn took<T, W>(
    r: Result<T, Error>,
    before: Map<Seq<char>, W>,
    after: Map<Seq<char>, W>,
    expected: Result<(T, Map<Seq<char>, W>), ErrorModel>,
) -> bool {
    &&& is_part(after, before)
    &&& match (r, expected) {
        (Ok(t), Ok((x, rest))) => t == x && after == rest,
        (Err(e), Err(m)) => e@ == m,
        _ => false,
    }
}

/// The names that begin with `prefix`, without it.
pub open spec fn under_prefix<W>(weights: Map<Seq<char>, W>, prefix: Seq<char>) -> Map<
    Seq<char>,
    W,
> {
    Map::new(
        |key: Seq<char>| weights.contains_key(prefix + key),
        |key: Seq<char>| weights[prefix + key],
    )
}

/// The names that do not begin with `prefix`.
pub open spec fn outside_prefix<W>(weights: Map<Seq<char>, W>, prefix: Seq<char>) -> Map<
    Seq<char>,
    W,
> {
    Map::new(
        |key: Seq<char>| weights.contains_key(key) && !text::begins_with(key, prefix),
        |key: Seq<char>| weights[key],
    )
}

/// The names that do not hold `part`.
pub open spec fn without_part<W>(weights: Map<Seq<char>, W>, part: Seq<char>) -> Map<
    Seq<char>,
    W,
> {
    Map::new(
        |key: Seq<char>| weights.contains_key(key) && !text::occurs(key, part),
        |key: Seq<char>| weights[key],
    )
}

impl<W> WeightMap<W> {
    #[verifier::type_invariant]
    closed spec fn inv(self) -> bool {
        distinct(self.entries@)
    }

    /// A map without entries.
    pub fn new() -> (r: Self)
        ensures
            r@ == Map::<Seq<char>, W>::empty(),
    {
        let r: WeightMap<W> = WeightMap { entries: Vec::new() };
        assert(r@ =~= Map::<Seq<char>, W>::empty());
        r
    }

    /// The number of entries.
    pub fn len(&self) -> (r: usize)
        ensures
            r == self@.dom().len(),
    {
        proof {
            use_type_invariant(self);
            lemma_count(self.entries@);
        }
        self.entries.len()
    }

    /// Whether there are no entries.
    pub fn is_empty(&self) -> (r: bool)
        ensures
            r == (self@ == Map::<Seq<char>, W>::empty()),
    {
        proof {
            use_type_invariant(self);
            if self.entries@.len() == 0 {
                assert(self@ =~= Map::<Seq<char>, W>::empty());
            } else {
                lemma_lookup_at(self.entries@, 0);
                assert(self@.contains_key(self.entries@[0].0@));
            }
        }
        self.entries.len() == 0
    }

    /// Where a name stands among the entries.
    fn position(&self, key: &str) -> (r: Option<usize>)
        ensures
            match r {
                Some(i) => i < self.entries@.len() && self.entries@[i as int].0@ == key@,
                None => forall|i: int|
                    0 <= i < self.entries@.len() ==> (#[trigger] self.entries@[i]).0@ != key@,
            },
    {
        let mut i: usize = 0;
        while i < self.entries.len()
            invariant
                i <= self.entries@.len(),
                forall|j: int| 0 <= j < i ==> (#[trigger] self.entries@[j]).0@ != key@,
            decreases self.entries@.len() - i,
        {
            if same_text(self.entries[i].0.as_str(), key) {
                return Some(i);
            }
            i += 1;
        }
        None
    }

    /// Whether there is a weight of the given name.
    pub fn contains_key(&self, key: &str) -> (r: bool)
        ensures
            r == self@.contains_key(key@),
    {
        proof {
            use_type_invariant(self);
        }
        match self.position(key) {
            Some(i) => {
                proof {
                    lemma_lookup_at(self.entries@, i as int);
                }
                true
            },
            None => {
                proof {
                    lemma_lookup_missing(self.entries@, key@);
                }
                false
            },
        }
    }

    /// The weight of a name, where there is one.
    pub fn get(&self, key: &str) -> (r: Option<&W>)
        ensures
            match r {
                Some(weight) => self@.contains_key(key@) && *weight == self@[key@],
                None => !self@.contains_key(key@),
            },
    {
        proof {
            use_type_invariant(self);
        }
        match self.position(key) {
            Some(i) => {
                proof {
                    lemma_lookup_at(self.entries@, i as int);
                }
                Some(&self.entries[i].1)
            },
            None => {
                proof {
                    lemma_lookup_missing(self.entries@, key@);
                }
                None
            },
        }
    }

    /// Adds a weight under a name that is new; a name that is there already is
    /// refused, and the weight is dropped.
    pub fn insert_unique(&mut self, key: String, weight: W, context: &'static str) -> (r: Result<
        (),
        Error,
    >)
        ensures
            match r {
                Ok(_) => !old(self)@.contains_key(key@) && final(self)@ == old(self)@.insert(
                    key@,
                    weight,
                ),
                Err(e) => old(self)@.contains_key(key@) && final(self)@ == old(self)@ && e@
                    == (ErrorModel::KeyCollision { context, key: key@ }),
            },
    {
        if self.contains_key(key.as_str()) {
            return Err(Error::KeyCollision(KeyPayload { context, key }));
        }
        proof {
            use_type_invariant(&*self);
            lemma_pushed(self.entries@, (key, weight));
        }
        let mut entries: Vec<(String, W)> = Vec::new();
        std::mem::swap(&mut entries, &mut self.entries);
        entries.push((key, weight));
        self.entries = entries;
        Ok(())
    }

    /// Takes the weight of a name, where there is one.
    pub fn remove(&mut self, key: &str) -> (r: Option<W>)
        ensures
            match r {
                Some(weight) => old(self)@.contains_key(key@) && weight == old(self)@[key@]
                    && final(self)@ == old(self)@.remove(key@),
                None => !old(self)@.contains_key(key@) && final(self)@ == old(self)@,
            },
    {
        proof {
            use_type_invariant(&*self);
        }
        match self.position(key) {
            Some(i) => {
                let ghost before = self.entries@;
                proof {
                    lemma_lookup_at(before, i as int);
                    assert forall|k: Seq<char>| #[trigger] lookup(before.remove(i as int), k) == (
                    if k == key@ {
                        None
                    } else {
                        lookup(before, k)
                    }) by {
                        lemma_lookup_removed(before, i as int, k);
                    }
                    lemma_lookup_removed(before, i as int, key@);
                    assert(as_map(before.remove(i as int)) =~= as_map(before).remove(key@));
                }
                let mut entries: Vec<(String, W)> = Vec::new();
                std::mem::swap(&mut entries, &mut self.entries);
                let (_, weight): (String, W) = entries.remove(i);
                self.entries = entries;
                Some(weight)
            },
            None => {
                proof {
                    lemma_lookup_missing(self.entries@, key@);
                }
                None
            },
        }
    }

    /// Takes the weight of a name that has to be there; see [`taken`].
    pub fn take_weight(&mut self, context: &'static str, key: &str) -> (r: Result<W, Error>)
        ensures
            took(r, old(self)@, final(self)@, taken(old(self)@, context, key@)),
            r is Err ==> final(self)@ == old(self)@,
    {
        match self.remove(key) {
            Some(weight) => Ok(weight),
            None => Err(Error::MissingKey(KeyPayload { context, key: key.to_owned() })),
        }
    }

    /// Takes the weight of a name that a flag governs; see [`gated`].
    pub fn take_if(&mut self, context: &'static str, flag: bool, key: &str) -> (r: Result<
        Option<W>,
        Error,
    >)
        ensures
            took(r, old(self)@, final(self)@, gated(old(self)@, context, flag, key@)),
    {
        if flag {
            Ok(Some(self.take_weight(context, key)?))
        } else if self.contains_key(key) {
            Err(Error::KeyCollision(KeyPayload { context, key: key.to_owned() }))
        } else {
            Ok(None)
        }
    }

    /// Takes every weight whose name begins with `prefix`, under its name without
    /// the prefix. Where the allocator declines, nothing is taken; it never declines
    /// where there are no weights.
    pub fn take_prefixed(&mut self, prefix: &str, context: &'static str) -> (r: Result<
        WeightMap<W>,
        Error,
    >)
        ensures
            match r {
                Ok(out) => out@ == under_prefix(old(self)@, prefix@) && final(self)@
                    == outside_prefix(old(self)@, prefix@),
                Err(e) => e == (Error::AllocFailure { context }) && final(self)@ == old(self)@,
            },
            old(self)@ == Map::<Seq<char>, W>::empty() ==> r is Ok,
    {
        proof {
            use_type_invariant(&*self);
            if self.entries@.len() > 0 {
                lemma_lookup_at(self.entries@, 0);
                assert(self@.contains_key(self.entries@[0].0@));
            }
        }
        let count: usize = self.entries.len();
        let under: Vec<(String, W)> = reserve_or_error(count, context)?;
        let outside: Vec<(String, W)> = reserve_or_error(count, context)?;
        Ok(self.split_prefixed(prefix, under, outside))
    }

    /// Takes every weight whose name begins with `prefix`, under its name without
    /// the prefix, with two empty buffers for the two parts.
    pub fn split_prefixed(
        &mut self,
        prefix: &str,
        under_buffer: Vec<(String, W)>,
        outside_buffer: Vec<(String, W)>,
    ) -> (r: WeightMap<W>)
        requires
            under_buffer@.len() == 0,
            outside_buffer@.len() == 0,
        ensures
            r@ == under_prefix(old(self)@, prefix@),
            final(self)@ == outside_prefix(old(self)@, prefix@),
    {
        let mut under: Vec<(String, W)> = under_buffer;
        let mut outside: Vec<(String, W)> = outside_buffer;
        proof {
            use_type_invariant(&*self);
        }
        let ghost all = self.entries@;
        let mut entries: Vec<(String, W)> = Vec::new();
        std::mem::swap(&mut entries, &mut self.entries);
        assert(entries@ =~= all.take(all.len() as int));
        loop
            invariant
                distinct(all),
                entries@.len() <= all.len(),
                entries@ == all.take(entries@.len() as int),
                distinct(under@),
                distinct(outside@),
                forall|key: Seq<char>|
                    #![trigger lookup(under@, key)]
                    lookup(under@, key) == among(all, entries@.len() as int, prefix@ + key),
                forall|key: Seq<char>|
                    #![trigger lookup(outside@, key)]
                    lookup(outside@, key) == (if text::begins_with(key, prefix@) {
                        None
                    } else {
                        among(all, entries@.len() as int, key)
                    }),
            ensures
                entries@.len() == 0,
            decreases entries@.len(),
        {
            let ghost n = entries@.len() as int;
            match entries.pop() {
                None => {
                    break;
                },
                Some((key, weight)) => {
                    proof {
                        assert(all[n - 1] == (key, weight));
                        assert(entries@ =~= all.take(n - 1));
                        assert forall|k: Seq<char>| #[trigger] among(all, n - 1, k) == (if k == key@ {
                            Some(weight)
                        } else {
                            among(all, n, k)
                        }) by {
                            lemma_among_next(all, n - 1, k);
                        }
                        lemma_among_beyond(all, n, key@);
                    }
                    let rest: Option<&str> = after_prefix(key.as_str(), prefix);
                    match rest {
                        Some(rest) => {
                            let short: String = rest.to_owned();
                            proof {
                                lemma_pushed(under@, (short, weight));
                                assert(under@.push((short, weight)).drop_last() =~= under@);
                                assert forall|k: Seq<char>| #[trigger]
                                    lookup(under@.push((short, weight)), k) == among(
                                    all,
                                    n - 1,
                                    prefix@ + k,
                                ) by {
                                    if prefix@ + k == key@ {
                                        assert(k =~= (prefix@ + k).skip(prefix@.len() as int));
                                        assert(short@ =~= key@.skip(prefix@.len() as int));
                                    } else if k == short@ {
                                        assert(prefix@ + k =~= key@);
                                    }
                                    assert(lookup(under@, k) == among(all, n, prefix@ + k));
                                }
                                assert forall|k: Seq<char>| #[trigger] lookup(outside@, k) == (
                                if text::begins_with(k, prefix@) {
                                    None
                                } else {
                                    among(all, n - 1, k)
                                }) by {
                                    assert(key@.subrange(0, prefix@.len() as int) =~= prefix@);
                                }
                            }
                            under.push((short, weight));
                        },
                        None => {
                            proof {
                                lemma_pushed(outside@, (key, weight));
                                assert(outside@.push((key, weight)).drop_last() =~= outside@);
                                assert forall|k: Seq<char>| #[trigger] lookup(under@, k) == among(
                                    all,
                                    n - 1,
                                    prefix@ + k,
                                ) by {
                                    if prefix@ + k == key@ {
                                        assert(key@.subrange(0, prefix@.len() as int) =~= prefix@);
                                    }
                                }
                            }
                            outside.push((key, weight));
                        },
                    }
                },
            }
        }
        self.entries = outside;
        let out: WeightMap<W> = WeightMap { entries: under };
        proof {
            assert forall|key: Seq<char>| #[trigger] among(all, 0, key) == lookup(all, key) by {
                lemma_among_all(all, key);
            }
            assert(out@ =~= under_prefix(as_map(all), prefix@));
            assert(self@ =~= outside_prefix(as_map(all), prefix@));
        }
        out
    }

    /// Gives up the names and their weights, each once.
    pub fn into_entries(self) -> (r: Vec<(String, W)>)
        ensures
            forall|i: int|
                0 <= i < r@.len() ==> self@.contains_key((#[trigger] r@[i]).0@) && self@[r@[i].0@]
                    == r@[i].1,
            forall|i: int, j: int|
                0 <= i < j < r@.len() ==> (#[trigger] r@[i]).0@ != (#[trigger] r@[j]).0@,
            forall|key: Seq<char>| #[trigger]
                self@.contains_key(key) ==> exists|i: int|
                    0 <= i < r@.len() && (#[trigger] r@[i]).0@ == key,
    {
        proof {
            use_type_invariant(&self);
            assert forall|i: int| 0 <= i < self.entries@.len() implies self@.contains_key(
                (#[trigger] self.entries@[i]).0@,
            ) && self@[self.entries@[i].0@] == self.entries@[i].1 by {
                lemma_lookup_at(self.entries@, i);
            }
            assert forall|key: Seq<char>| #[trigger] self@.contains_key(key) implies exists|i: int|
                0 <= i < self.entries@.len() && (#[trigger] self.entries@[i]).0@ == key by {
                lemma_lookup_found(self.entries@, key);
            }
        }
        self.entries
    }

    /// Drops every weight whose name holds `part`.
    pub fn drop_containing(&mut self, part: &str)
        ensures
            final(self)@ == without_part(old(self)@, part@),
    {
        proof {
            use_type_invariant(&*self);
        }
        let ghost all = self.entries@;
        let mut entries: Vec<(String, W)> = Vec::new();
        std::mem::swap(&mut entries, &mut self.entries);
        let mut kept: Vec<(String, W)> = Vec::new();
        assert(entries@ =~= all.take(all.len() as int));
        loop
            invariant
                distinct(all),
                entries@.len() <= all.len(),
                entries@ == all.take(entries@.len() as int),
                distinct(kept@),
                forall|key: Seq<char>|
                    #![trigger lookup(kept@, key)]
                    lookup(kept@, key) == (if text::occurs(key, part@) {
                        None
                    } else {
                        among(all, entries@.len() as int, key)
                    }),
            ensures
                entries@.len() == 0,
            decreases entries@.len(),
        {
            let ghost n = entries@.len() as int;
            match entries.pop() {
                None => {
                    break;
                },
                Some((key, weight)) => {
                    proof {
                        assert(all[n - 1] == (key, weight));
                        assert(entries@ =~= all.take(n - 1));
                        assert forall|k: Seq<char>| #[trigger] among(all, n - 1, k) == (if k == key@ {
                            Some(weight)
                        } else {
                            among(all, n, k)
                        }) by {
                            lemma_among_next(all, n - 1, k);
                        }
                        lemma_among_beyond(all, n, key@);
                    }
                    if !contains_text(key.as_str(), part) {
                        proof {
                            lemma_pushed(kept@, (key, weight));
                            assert(kept@.push((key, weight)).drop_last() =~= kept@);
                            assert forall|k: Seq<char>| #[trigger]
                                lookup(kept@.push((key, weight)), k) == (if text::occurs(k, part@) {
                                None
                            } else {
                                among(all, n - 1, k)
                            }) by {
                                assert(lookup(kept@, k) == (if text::occurs(k, part@) {
                                    None
                                } else {
                                    among(all, n, k)
                                }));
                            }
                        }
                        kept.push((key, weight));
                    } else {
                        assert forall|k: Seq<char>| #[trigger] lookup(kept@, k) == (if text::occurs(
                            k,
                            part@,
                        ) {
                            None
                        } else {
                            among(all, n - 1, k)
                        }) by {}
                    }
                },
            }
        }
        self.entries = kept;
        proof {
            assert forall|key: Seq<char>| #[trigger] among(all, 0, key) == lookup(all, key) by {
                lemma_among_all(all, key);
            }
            assert(self@ =~= without_part(as_map(all), part@));
        }
    }
}

/// The weight of a name among the entries from `n` on.
spec fn among<W>(entries: Seq<(String, W)>, n: int, key: Seq<char>) -> Option<W> {
    lookup(entries.skip(n), key)
}

proof fn lemma_among_all<W>(entries: Seq<(String, W)>, key: Seq<char>)
    ensures
        among(entries, 0, key) == lookup(entries, key),
{
    assert(entries.skip(0) =~= entries);
}

proof fn lemma_among_next<W>(entries: Seq<(String, W)>, n: int, key: Seq<char>)
    requires
        distinct(entries),
        0 <= n < entries.len(),
    ensures
        among(entries, n, key) == (if key == entries[n].0@ {
            Some(entries[n].1)
        } else {
            among(entries, n + 1, key)
        }),
{
    let tail = entries.skip(n);
    assert(distinct(tail)) by {
        assert forall|a: int, b: int| 0 <= a < b < tail.len() implies (#[trigger] tail[a]).0@ != (
        #[trigger] tail[b]).0@ by {
            assert(entries[n + a].0@ != entries[n + b].0@);
        }
    }
    assert(tail[0] == entries[n]);
    lemma_lookup_removed(tail, 0, key);
    assert(tail.remove(0) =~= entries.skip(n + 1));
    if key == entries[n].0@ {
        lemma_lookup_at(tail, 0);
    }
}

proof fn lemma_among_beyond<W>(entries: Seq<(String, W)>, n: int, key: Seq<char>)
    requires
        distinct(entries),
        0 < n <= entries.len(),
        entries[n - 1].0@ == key,
    ensures
        among(entries, n, key) is None,
{
    let tail = entries.skip(n);
    assert forall|i: int| 0 <= i < tail.len() implies (#[trigger] tail[i]).0@ != key by {
        assert(entries[n - 1].0@ != entries[n + i].0@);
    }
    lemma_lookup_missing(tail, key);
}

/// Taking a prefix keeps every weight: each name is under the prefix or outside
/// it, and nothing is in both places or in neither.
pub proof fn law_a_prefix_partitions_the_weights<W>(
    weights: Map<Seq<char>, W>,
    prefix: Seq<char>,
    key: Seq<char>,
)
    ensures
        weights.contains_key(key) && !text::begins_with(key, prefix) <==> outside_prefix(
            weights,
            prefix,
        ).contains_key(key),
        weights.contains_key(prefix + key) <==> under_prefix(weights, prefix).contains_key(key),
        text::begins_with(prefix + key, prefix),
        weights.contains_key(prefix + key) ==> under_prefix(weights, prefix)[key] == weights[prefix
            + key],
        outside_prefix(weights, prefix).contains_key(key) ==> outside_prefix(weights, prefix)[key]
            == weights[key],
{
    assert((prefix + key).subrange(0, prefix.len() as int) =~= prefix);
}


/// The weights whose names hold a text are dropped, and the others are kept as they
/// are.
pub proof fn law_weights_are_dropped_by_their_name<W>(
    weights: Map<Seq<char>, W>,
    part: Seq<char>,
    key: Seq<char>,
)
    ensures
        without_part(weights, part).contains_key(key) <==> weights.contains_key(key)
            && !text::occurs(key, part),
        without_part(weights, part).contains_key(key) ==> without_part(weights, part)[key]
            == weights[key],
{
}

/// A weight is taken where its name is there: it is the weight of that name, only it is
/// gone, and a name that is not there is named in the refusal.
pub proof fn law_a_taken_weight_is_that_of_its_name<W>(
    weights: Map<Seq<char>, W>,
    context: &'static str,
    key: Seq<char>,
    other: Seq<char>,
)
    ensures
        weights.contains_key(key) ==> {
            taken(weights, context, key) matches Ok((w, rest)) && w == weights[key]
                && !rest.contains_key(key) && (other != key ==> (rest.contains_key(other)
                <==> weights.contains_key(other)) && (rest.contains_key(other) ==> rest[other]
                == weights[other]))
        },
        !weights.contains_key(key) ==> taken(weights, context, key) == Err::<
            (W, Map<Seq<char>, W>),
            ErrorModel,
        >(ErrorModel::MissingKey { context, key }),
{
}

/// A weight that a flag governs is there exactly where the flag is set: it is refused as
/// missing or as in the way otherwise.
pub proof fn law_a_flag_governs_its_weight<W>(
    weights: Map<Seq<char>, W>,
    context: &'static str,
    flag: bool,
    key: Seq<char>,
)
    ensures
        gated(weights, context, flag, key) is Ok <==> (flag <==> weights.contains_key(key)),
        gated(weights, context, flag, key) matches Ok((w, rest)) ==> {
            &&& flag ==> w == Some(weights[key]) && rest == weights.remove(key)
            &&& !flag ==> w is None && rest == weights
        },
        flag && !weights.contains_key(key) ==> (gated(weights, context, flag, key) matches Err(e)
            && e is MissingKey),
        !flag && weights.contains_key(key) ==> (gated(weights, context, flag, key) matches Err(e)
            && e is KeyCollision),
{
}


/// What is taken of some weights, and what they are afterwards, is what was to be taken and
/// left; a refusal is the stated one, and adds nothing to the weights.
pub proof fn law_what_is_taken_is_what_was_stated<T, W>(
    r: Result<T, Error>,
    before: Map<Seq<char>, W>,
    after: Map<Seq<char>, W>,
    expected: Result<(T, Map<Seq<char>, W>), ErrorModel>,
    key: Seq<char>,
)
    requires
        took(r, before, after, expected),
    ensures
        r is Ok <==> expected is Ok,
        expected matches Ok((t, rest)) ==> r == Ok::<T, Error>(t) && after == rest,
        expected matches Err(m) ==> (r matches Err(e) && e@ == m),
        after.contains_key(key) ==> before.contains_key(key) && before[key] == after[key],
{
}

} // verus!
