//! The active component: the accumulator the parsing driver mutates and
//! queries during a single left-to-right pass over the token stream.

use vstd::prelude::*;
use crate::arg_matches::ArgMatches;
use crate::arg_matches::MatchedArg;
use crate::arg_matches::SubCommand;
use crate::arg_matches::lemma_index_of_unique;
use crate::arg_matches::lemma_push_fresh;
use crate::arg_matches::lemma_update_at;
use crate::arg_matches::lemma_remove_at;

verus! {

/// The slice of an argument's registry specification that the
/// value-consumption policy consults: the argument's name, its optional
/// exact, maximum and minimum value counts, and whether it may occur more
/// than once on the command line.
#[derive(Debug, Clone)]
pub struct ArgSpec {
    pub name: String,
    pub num_vals: Option<u64>,
    pub max_vals: Option<u64>,
    pub min_vals: Option<u64>,
    pub multiple: bool,
}

/// The names in `l`, as character sequences, in order.
pub open spec fn views_of_strs(l: Seq<&str>) -> Seq<Seq<char>> {
    Seq::new(l.len(), |i: int| l[i]@)
}

/// Whether `n` occurs among the names `l`.
pub open spec fn name_listed(l: Seq<Seq<char>>, n: Seq<char>) -> bool {
    exists|i: int| 0 <= i < l.len() && l[i] == n
}

/// How many times `n` occurs among the names `l`.
pub open spec fn name_count(l: Seq<Seq<char>>, n: Seq<char>) -> nat
    decreases l.len(),
{
    if l.len() == 0 {
        0
    } else {
        name_count(l.drop_last(), n) + (if l.last() == n { 1nat } else { 0nat })
    }
}

/// Extending a prefix of `l` by its next name lists `n` exactly when the
/// shorter prefix did or the next name is `n`.
proof fn lemma_name_listed_extend(l: Seq<&str>, k: int, n: Seq<char>)
    requires
        0 <= k < l.len(),
    ensures
        name_listed(views_of_strs(l.subrange(0, k + 1)), n) <==> (name_listed(
            views_of_strs(l.subrange(0, k)),
            n,
        ) || l[k]@ == n),
{
    let a = views_of_strs(l.subrange(0, k));
    let b = views_of_strs(l.subrange(0, k + 1));
    if name_listed(b, n) {
        let w = choose|w: int| 0 <= w < b.len() && b[w] == n;
        if w < k {
            assert(a[w] == n);
        } else {
            assert(l[k]@ == n);
        }
    }
    if name_listed(a, n) {
        let w = choose|w: int| 0 <= w < a.len() && a[w] == n;
        assert(b[w] == n);
    }
    if l[k]@ == n {
        assert(b[k] == n);
    }
}

/// A name not listed in `l` occurs zero times in it.
proof fn lemma_name_count_zero_when_unlisted(l: Seq<Seq<char>>, n: Seq<char>)
    requires
        !name_listed(l, n),
    ensures
        name_count(l, n) == 0,
    decreases l.len(),
{
    if l.len() > 0 {
        assert(l.last() != n) by {
            if l.last() == n {
                assert(l[l.len() - 1] == n);
            }
        }
        assert(!name_listed(l.drop_last(), n)) by {
            if name_listed(l.drop_last(), n) {
                let w = choose|w: int| 0 <= w < l.drop_last().len() && l.drop_last()[w] == n;
                assert(l[w] == n);
            }
        }
        lemma_name_count_zero_when_unlisted(l.drop_last(), n);
    }
}

/// A name occurs among `l` no more often than `l` is long.
proof fn lemma_name_count_le_len(l: Seq<Seq<char>>, n: Seq<char>)
    ensures
        name_count(l, n) <= l.len(),
    decreases l.len(),
{
    if l.len() > 0 {
        lemma_name_count_le_len(l.drop_last(), n);
    }
}

/// A name occurs in a prefix of `l` no more often than in all of `l`.
proof fn lemma_name_count_prefix_le(l: Seq<&str>, k: int, n: Seq<char>)
    requires
        0 <= k <= l.len(),
    ensures
        name_count(views_of_strs(l.subrange(0, k)), n) <= name_count(views_of_strs(l), n),
    decreases l.len() - k,
{
    if k < l.len() {
        lemma_name_count_extend(l, k, n);
        lemma_name_count_prefix_le(l, k + 1, n);
    } else {
        assert(l.subrange(0, k) =~= l);
    }
}

/// Extending a prefix of `l` by its next name raises the count of `n` by
/// one exactly when the next name is `n`.
proof fn lemma_name_count_extend(l: Seq<&str>, k: int, n: Seq<char>)
    requires
        0 <= k < l.len(),
    ensures
        name_count(views_of_strs(l.subrange(0, k + 1)), n) == name_count(
            views_of_strs(l.subrange(0, k)),
            n,
        ) + (if l[k]@ == n { 1nat } else { 0nat }),
{
    assert(views_of_strs(l.subrange(0, k + 1)).drop_last() =~= views_of_strs(l.subrange(0, k)));
    assert(views_of_strs(l.subrange(0, k + 1)).last() == l[k]@);
}

/// The accumulator wrapping one match result set.
pub struct ArgMatcher(pub ArgMatches);

impl Default for ArgMatcher {
    /// A fresh accumulator wrapping an empty match result set.
    fn default() -> (r: Self)
        ensures
            r.wf(),
            r.0.args@.len() == 0,
            r.0.usage is None,
            r.0.subcommand is None,
    {
        ArgMatcher(ArgMatches::default())
    }
}

impl ArgMatcher {
    /// Well-formed: the wrapped result set records each name at most once.
    pub open spec fn wf(&self) -> bool {
        self.0.wf()
    }

    /// Whether a record for `name` exists.
    pub open spec fn has_record(&self, name: Seq<char>) -> bool {
        self.0.contains_name(name)
    }

    /// The record held for `name`; meaningful only when present.
    pub open spec fn record(&self, name: Seq<char>) -> MatchedArg {
        self.0.record_of(name)
    }

    pub fn new() -> (r: Self)
        ensures
            r.wf(),
            r.0.args@.len() == 0,
            r.0.usage is None,
            r.0.subcommand is None,
    {
        ArgMatcher::default()
    }

    /// The index of the record for `arg`, if one exists.
    fn find_index(&self, arg: &str) -> (r: Option<usize>)
        requires
            self.wf(),
        ensures
            match r {
                Some(i) => i < self.0.args@.len() && self.0.args@[i as int].0@ == arg@
                    && self.0.index_of(arg@) == i && self.has_record(arg@),
                None => !self.has_record(arg@),
            },
    {
        let key: String = arg.to_owned();
        let n = self.0.args.len();
        let mut i: usize = 0;
        while i < n
            invariant
                n == self.0.args@.len(),
                i <= n,
                key@ == arg@,
                self.wf(),
                forall|j: int| 0 <= j < i ==> self.0.args@[j].0@ != arg@,
            decreases n - i,
        {
            if self.0.args[i].0 == key {
                proof {
                    lemma_index_of_unique(&self.0, arg@, i as int);
                }
                return Some(i);
            }
            i += 1;
        }
        None
    }

    /// Look up the record for `arg`, or report absence.
    pub fn get(&self, arg: &str) -> (r: Option<&MatchedArg>)
        requires
            self.wf(),
        ensures
            match r {
                Some(ma) => self.has_record(arg@) && *ma == self.record(arg@),
                None => !self.has_record(arg@),
            },
    {
        match self.find_index(arg) {
            Some(i) => Some(&self.0.args[i].1),
            None => None,
        }
    }

    /// Record a fresh, empty record for `arg` if none exists; an already
    /// present record is left untouched.
    pub fn insert(&mut self, arg: &str)
        requires
            old(self).wf(),
        ensures
            final(self).wf(),
            final(self).0.usage == old(self).0.usage,
            final(self).0.subcommand == old(self).0.subcommand,
            forall|n: Seq<char>| #[trigger] final(self).has_record(n) <==> (old(self).has_record(n) || n == arg@),
            forall|n: Seq<char>| old(self).has_record(n) ==> final(self).record(n) == old(self).record(n),
            final(self).0.names() =~= (if old(self).has_record(arg@) { old(self).0.names() } else { old(self).0.names().push(arg@) }),
            old(self).has_record(arg@) ==> *final(self) == *old(self),
            !old(self).has_record(arg@) ==> final(self).record(arg@).occurs == 0
                && final(self).record(arg@).vals@.len() == 0,
    {
        if !self.contains(arg) {
            let ghost m_old = self.0;
            self.0.args.push((arg.to_owned(), MatchedArg::new()));
            proof {
                lemma_push_fresh(&m_old, &self.0, arg@, self.0.args@.last().1);
            }
        }
    }

    /// Delete the record for `arg`, if one exists.
    pub fn remove(&mut self, arg: &str)
        requires
            old(self).wf(),
        ensures
            final(self).wf(),
            final(self).0.usage == old(self).0.usage,
            final(self).0.subcommand == old(self).0.subcommand,
            forall|n: Seq<char>| #[trigger] final(self).has_record(n) <==> (old(self).has_record(n) && n != arg@),
            forall|n: Seq<char>| old(self).has_record(n) && n != arg@ ==> final(self).record(n) == old(self).record(n),
            old(self).has_record(arg@) ==> final(self).0.names() =~= old(self).0.names().remove(old(self).0.index_of(arg@)),
            !old(self).has_record(arg@) ==> *final(self) == *old(self),
    {
        match self.find_index(arg) {
            Some(i) => {
                let ghost m_old = self.0;
                self.0.args.remove(i);
                proof {
                    lemma_remove_at(&m_old, &self.0, i as int);
                }
            }
            None => {}
        }
    }

    /// Look up the record for `arg` for mutation, or report absence.
    /// Whatever the caller writes through the returned reference, the
    /// record's name and every other record keep their places.
    pub fn get_mut(&mut self, arg: &str) -> (r: Option<&mut MatchedArg>)
        requires
            old(self).wf(),
        ensures
            match r {
                Some(ma) => ({
                    let i = old(self).0.index_of(arg@);
                    &&& old(self).has_record(arg@)
                    &&& *ma == old(self).record(arg@)
                    &&& final(self).0.args@ == old(self).0.args@.update(i, (old(self).0.args@[i].0, *final(ma)))
                    &&& final(self).0.usage == old(self).0.usage
                    &&& final(self).0.subcommand == old(self).0.subcommand
                }),
                None => !old(self).has_record(arg@) && *final(self) == *old(self),
            },
    {
        match self.find_index(arg) {
            Some(i) => Some(&mut self.0.args[i].1),
            None => None,
        }
    }

    /// Count one more occurrence of `arg`: an existing record's count rises
    /// by one and its values stay; a first sighting records a fresh record,
    /// whose count is the constructor's initial value, zero.
    pub fn inc_occurrence_of(&mut self, arg: &str)
        requires
            old(self).wf(),
            old(self).has_record(arg@) ==> old(self).record(arg@).occurs < u64::MAX,
        ensures
            final(self).wf(),
            final(self).0.usage == old(self).0.usage,
            final(self).0.subcommand == old(self).0.subcommand,
            forall|n: Seq<char>| #[trigger] final(self).has_record(n) <==> (old(self).has_record(n) || n == arg@),
            forall|n: Seq<char>| old(self).has_record(n) && n != arg@ ==> final(self).record(n) == old(self).record(n),
            final(self).0.names() =~= (if old(self).has_record(arg@) { old(self).0.names() } else { old(self).0.names().push(arg@) }),
            old(self).has_record(arg@) ==> final(self).record(arg@).occurs == old(self).record(arg@).occurs + 1
                && final(self).record(arg@).vals == old(self).record(arg@).vals,
            !old(self).has_record(arg@) ==> final(self).record(arg@).occurs == 0
                && final(self).record(arg@).vals@.len() == 0,
    {
        let ghost m_old = self.0;
        if let Some(a) = self.get_mut(arg) {
            a.occurs = a.occurs + 1;
            proof {
                let i = m_old.index_of(arg@);
                lemma_update_at(&m_old, &self.0, i, self.0.args@[i].1);
            }
            return;
        }
        self.insert(arg);
    }

    /// Count one more occurrence of each name, in the given order: a name
    /// recorded beforehand ends with its count raised by the number of times
    /// it is listed; a name first sighted here ends with one less, since the
    /// first sighting records the constructor's initial count of zero.
    pub fn inc_occurrences_of(&mut self, args: &[&str])
        requires
            old(self).wf(),
            forall|n: Seq<char>| old(self).has_record(n) ==> old(self).record(n).occurs + name_count(views_of_strs(args@), n) <= u64::MAX,
        ensures
            final(self).wf(),
            final(self).0.usage == old(self).0.usage,
            final(self).0.subcommand == old(self).0.subcommand,
            forall|n: Seq<char>| #[trigger] final(self).has_record(n) <==> (old(self).has_record(n) || name_listed(views_of_strs(args@), n)),
            forall|n: Seq<char>| old(self).has_record(n) ==> final(self).record(n).occurs == old(self).record(n).occurs + name_count(views_of_strs(args@), n)
                && final(self).record(n).vals == old(self).record(n).vals,
            forall|n: Seq<char>| !old(self).has_record(n) && name_listed(views_of_strs(args@), n) ==> final(self).record(n).occurs + 1 == name_count(views_of_strs(args@), n)
                && final(self).record(n).vals@.len() == 0,
    {
        let mut k: usize = 0;
        while k < args.len()
            invariant
                self.wf(),
                self.0.usage == old(self).0.usage,
                self.0.subcommand == old(self).0.subcommand,
                k <= args@.len(),
                forall|n: Seq<char>| old(self).has_record(n) ==> old(self).record(n).occurs + name_count(views_of_strs(args@), n) <= u64::MAX,
                forall|n: Seq<char>| #[trigger] self.has_record(n) <==> (old(self).has_record(n) || name_listed(views_of_strs(args@.subrange(0, k as int)), n)),
                forall|n: Seq<char>| old(self).has_record(n) ==> self.record(n).occurs == old(self).record(n).occurs + name_count(views_of_strs(args@.subrange(0, k as int)), n)
                    && self.record(n).vals == old(self).record(n).vals,
                forall|n: Seq<char>| !old(self).has_record(n) && name_listed(views_of_strs(args@.subrange(0, k as int)), n) ==> self.record(n).occurs + 1 == name_count(views_of_strs(args@.subrange(0, k as int)), n)
                    && self.record(n).vals@.len() == 0,
            decreases args@.len() - k,
        {
            proof {
                let a = args[k as int]@;
                lemma_name_count_le_len(views_of_strs(args@.subrange(0, k as int)), a);
                lemma_name_count_extend(args@, k as int, a);
                lemma_name_count_prefix_le(args@, k + 1 as int, a);
                if self.has_record(a) {
                    if old(self).has_record(a) {
                        assert(old(self).record(a).occurs + name_count(views_of_strs(args@), a) <= u64::MAX);
                        assert(self.record(a).occurs == old(self).record(a).occurs + name_count(views_of_strs(args@.subrange(0, k as int)), a));
                    } else {
                        assert(name_listed(views_of_strs(args@.subrange(0, k as int)), a));
                        assert(self.record(a).occurs + 1 == name_count(views_of_strs(args@.subrange(0, k as int)), a));
                    }
                    assert(self.record(a).occurs < u64::MAX);
                }
            }
            let ghost m_prev = *self;
            self.inc_occurrence_of(args[k]);
            proof {
                let a = args[k as int]@;
                assert forall|n: Seq<char>| #[trigger] self.has_record(n) <==> (old(self).has_record(n) || name_listed(views_of_strs(args@.subrange(0, k + 1 as int)), n))
                by {
                    lemma_name_listed_extend(args@, k as int, n);
                }
                assert forall|n: Seq<char>| old(self).has_record(n) implies self.record(n).occurs == old(self).record(n).occurs + name_count(views_of_strs(args@.subrange(0, k + 1 as int)), n)
                    && self.record(n).vals == old(self).record(n).vals
                by {
                    lemma_name_count_extend(args@, k as int, n);
                    lemma_name_listed_extend(args@, k as int, n);
                    if n == a {
                        assert(m_prev.has_record(n));
                    } else {
                        assert(self.record(n) == m_prev.record(n));
                    }
                }
                assert forall|n: Seq<char>| !old(self).has_record(n) && name_listed(views_of_strs(args@.subrange(0, k + 1 as int)), n) implies self.record(n).occurs + 1 == name_count(views_of_strs(args@.subrange(0, k + 1 as int)), n)
                    && self.record(n).vals@.len() == 0
                by {
                    lemma_name_count_extend(args@, k as int, n);
                    lemma_name_listed_extend(args@, k as int, n);
                    lemma_name_count_le_len(views_of_strs(args@.subrange(0, k as int)), n);
                    if n == a {
                        if !m_prev.has_record(n) {
                            assert(!name_listed(views_of_strs(args@.subrange(0, k as int)), n));
                            assert(name_count(views_of_strs(args@.subrange(0, k as int)), n) == 0) by {
                                lemma_name_count_zero_when_unlisted(views_of_strs(args@.subrange(0, k as int)), n);
                            }
                        }
                    } else {
                        assert(self.record(n) == m_prev.record(n));
                        assert(name_listed(views_of_strs(args@.subrange(0, k as int)), n));
                    }
                }
            }
            k += 1;
        }
        proof {
            assert(args@.subrange(0, args@.len() as int) =~= args@);
        }
    }

    /// Delete the records of exactly those listed names that are present;
    /// a listed name without a record is skipped, and every record of an
    /// unlisted name is left untouched.
    pub fn remove_all(&mut self, args: &[&str])
        requires
            old(self).wf(),
        ensures
            final(self).wf(),
            final(self).0.usage == old(self).0.usage,
            final(self).0.subcommand == old(self).0.subcommand,
            forall|n: Seq<char>| #[trigger] final(self).has_record(n) <==> (old(self).has_record(n) && !name_listed(views_of_strs(args@), n)),
            forall|n: Seq<char>| final(self).has_record(n) ==> final(self).record(n) == old(self).record(n),
    {
        let mut k: usize = 0;
        while k < args.len()
            invariant
                self.wf(),
                self.0.usage == old(self).0.usage,
                self.0.subcommand == old(self).0.subcommand,
                k <= args@.len(),
                forall|n: Seq<char>| #[trigger] self.has_record(n) <==> (old(self).has_record(n) && !name_listed(views_of_strs(args@.subrange(0, k as int)), n)),
                forall|n: Seq<char>| self.has_record(n) ==> self.record(n) == old(self).record(n),
            decreases args@.len() - k,
        {
            self.remove(args[k]);
            proof {
                assert forall|n: Seq<char>| #[trigger] self.has_record(n) <==> (old(self).has_record(n) && !name_listed(views_of_strs(args@.subrange(0, k + 1 as int)), n))
                by {
                    lemma_name_listed_extend(args@, k as int, n);
                }
            }
            k += 1;
        }
        proof {
            assert(args@.subrange(0, args@.len() as int) =~= args@);
        }
    }

    /// Whether a record for `arg` exists.
    pub fn contains(&self, arg: &str) -> (r: bool)
        requires
            self.wf(),
        ensures
            r == self.has_record(arg@),
    {
        self.find_index(arg).is_some()
    }

    /// Whether no records exist at all.
    pub fn is_empty(&self) -> (r: bool)
        ensures
            r <==> self.0.args@.len() == 0,
    {
        self.0.args.is_empty()
    }

    /// Overwrite the rendered usage string.
    pub fn usage(&mut self, usage: String)
        ensures
            final(self).0.usage == Some(usage),
            final(self).0.args == old(self).0.args,
            final(self).0.subcommand == old(self).0.subcommand,
            final(self).wf() <==> old(self).wf(),
    {
        self.0.usage = Some(usage);
    }

    /// All recorded argument names, in record order.
    pub fn arg_names(&self) -> (r: Vec<&str>)
        ensures
            r@.len() == self.0.args@.len(),
            forall|i: int| 0 <= i < r@.len() ==> r@[i]@ == self.0.names()[i],
    {
        let mut out: Vec<&str> = Vec::new();
        let n = self.0.args.len();
        let mut i: usize = 0;
        while i < n
            invariant
                n == self.0.args@.len(),
                i <= n,
                out@.len() == i,
                forall|j: int| 0 <= j < i ==> out@[j]@ == self.0.args@[j].0@,
            decreases n - i,
        {
            out.push(self.0.args[i].0.as_str());
            i += 1;
        }
        out
    }

    /// The (name, record) pairs in record order, for the caller to walk;
    /// the sequence is finite and can be walked repeatedly.
    pub fn iter(&self) -> (r: &Vec<(String, MatchedArg)>)
        ensures
            r == &self.0.args,
    {
        &self.0.args
    }

    /// Return the record for `arg`, inserting a fresh one first if none
    /// exists. Whatever the caller writes through the returned reference,
    /// the record's name and every other record keep their places.
    pub fn entry(&mut self, arg: &str) -> (r: &mut MatchedArg)
        requires
            old(self).wf(),
        ensures
            old(self).has_record(arg@) ==> ({
                let i = old(self).0.index_of(arg@);
                &&& *r == old(self).record(arg@)
                &&& final(self).0.args@ == old(self).0.args@.update(i, (old(self).0.args@[i].0, *final(r)))
            }),
            !old(self).has_record(arg@) ==> ({
                let len = old(self).0.args@.len() as int;
                &&& (*r).occurs == 0
                &&& (*r).vals@.len() == 0
                &&& final(self).0.args@.len() == len + 1
                &&& (forall|j: int| 0 <= j < len ==> final(self).0.args@[j] == old(self).0.args@[j])
                &&& final(self).0.args@[len].0@ == arg@
                &&& final(self).0.args@[len].1 == *final(r)
            }),
            final(self).0.usage == old(self).0.usage,
            final(self).0.subcommand == old(self).0.subcommand,
    {
        match self.find_index(arg) {
            Some(i) => &mut self.0.args[i].1,
            None => {
                self.0.args.push((arg.to_owned(), MatchedArg::new()));
                let n = self.0.args.len() - 1;
                &mut self.0.args[n].1
            }
        }
    }

    /// Attach `val` to `arg`'s record, creating the record first if none
    /// exists; the value lands at the end of the record's value list, so
    /// values are retrievable in attachment order.
    pub fn add_val_to(&mut self, arg: &str, val: &str)
        requires
            old(self).wf(),
        ensures
            final(self).wf(),
            final(self).0.usage == old(self).0.usage,
            final(self).0.subcommand == old(self).0.subcommand,
            forall|n: Seq<char>| #[trigger] final(self).has_record(n) <==> (old(self).has_record(n) || n == arg@),
            forall|n: Seq<char>| old(self).has_record(n) && n != arg@ ==> final(self).record(n) == old(self).record(n),
            final(self).0.names() =~= (if old(self).has_record(arg@) { old(self).0.names() } else { old(self).0.names().push(arg@) }),
            final(self).record(arg@).occurs == (if old(self).has_record(arg@) { old(self).record(arg@).occurs } else { 0u64 }),
            final(self).record(arg@).vals_view() =~= (if old(self).has_record(arg@) { old(self).record(arg@).vals_view() } else { Seq::<Seq<char>>::empty() }).push(val@),
    {
        let ghost m_old = self.0;
        let ma = self.entry(arg);
        ma.vals.push(val.to_owned());
        proof {
            if m_old.contains_name(arg@) {
                let i = m_old.index_of(arg@);
                lemma_update_at(&m_old, &self.0, i, self.0.args@[i].1);
            } else {
                let len = m_old.args@.len() as int;
                lemma_push_fresh(&m_old, &self.0, arg@, self.0.args@[len].1);
            }
        }
    }

    /// Record `sc` as the subcommand match, replacing any previous one.
    pub fn subcommand(&mut self, sc: SubCommand)
        ensures
            final(self).0.subcommand_name_view() == Some(sc.name@),
            final(self).0.subcommand matches Some(b) && *b == sc,
            final(self).0.args == old(self).0.args,
            final(self).0.usage == old(self).0.usage,
            final(self).wf() <==> old(self).wf(),
    {
        self.0.subcommand = Some(Box::new(sc));
    }

    /// The name of the recorded subcommand, if any.
    pub fn subcommand_name(&self) -> (r: Option<&str>)
        ensures
            match r {
                Some(s) => self.0.subcommand_name_view() == Some(s@),
                None => self.0.subcommand_name_view() is None,
            },
    {
        match &self.0.subcommand {
            Some(sc) => Some(sc.name.as_str()),
            None => None,
        }
    }

    /// The value-consumption policy, as a predicate over the accumulator's
    /// state and the argument's registry specification.
    pub open spec fn spec_needs_more_vals(&self, o: &ArgSpec) -> bool {
        if !self.has_record(o.name@) {
            true
        } else {
            let cnt = self.record(o.name@).vals@.len();
            match o.num_vals {
                Some(num) => if o.multiple {
                    cnt % (num as nat) != 0
                } else {
                    cnt != num as nat
                },
                None => match o.max_vals {
                    Some(m) => cnt <= m as nat,
                    None => if o.min_vals is Some {
                        true
                    } else {
                        o.multiple
                    },
                },
            }
        }
    }

    /// Decide whether the parser must keep attaching values to the argument
    /// described by `o`. An argument without a record always needs a value;
    /// an exact count asks for more until the count is met, per repeating
    /// group when multiple occurrences are allowed; a maximum asks for more
    /// until the count exceeds it, inclusive of the cap itself; a bare
    /// minimum always asks for more; with no count constraints, only an
    /// argument that may repeat keeps asking once any value is attached.
    pub fn needs_more_vals(&self, o: &ArgSpec) -> (r: bool)
        requires
            self.wf(),
            !(self.has_record(o.name@) && o.multiple && o.num_vals == Some(0u64)),
        ensures
            r == self.spec_needs_more_vals(o),
    {
        match self.get(o.name.as_str()) {
            Some(ma) => {
                if let Some(num) = o.num_vals {
                    if o.multiple {
                        (ma.vals.len() as u64) % num != 0
                    } else {
                        num != ma.vals.len() as u64
                    }
                } else if let Some(num) = o.max_vals {
                    !((ma.vals.len() as u64) > num)
                } else if o.min_vals.is_some() {
                    true
                } else {
                    o.multiple
                }
            }
            None => true,
        }
    }
}

/// With no count constraints and multiple occurrences allowed, the policy
/// asks for more values whatever has been recorded: it is unconditioned on
/// the value count.
pub proof fn lemma_needs_more_unconstrained_multiple(m: &ArgMatcher, o: &ArgSpec)
    requires
        o.num_vals is None,
        o.max_vals is None,
        o.min_vals is None,
        o.multiple,
    ensures
        m.spec_needs_more_vals(o),
{
}

/// With no count constraints and multiple occurrences disabled, the policy
/// asks for more values exactly while no record exists: a plain single-value
/// argument stops needing values once it has a record.
pub proof fn lemma_needs_more_unconstrained_single(m: &ArgMatcher, o: &ArgSpec)
    requires
        o.num_vals is None,
        o.max_vals is None,
        o.min_vals is None,
        !o.multiple,
    ensures
        m.spec_needs_more_vals(o) <==> !m.has_record(o.name@),
{
}

impl From<ArgMatcher> for ArgMatches {
    /// Hand the finished match result set over to the result consumer.
    fn from(m: ArgMatcher) -> (r: ArgMatches)
        ensures
            r == m.0,
    {
        m.0
    }
}

impl vstd::std_specs::convert::FromSpecImpl<ArgMatcher> for ArgMatches {
    open spec fn obeys_from_spec() -> bool {
        true
    }

    open spec fn from_spec(m: ArgMatcher) -> ArgMatches {
        m.0
    }
}

} // verus!
