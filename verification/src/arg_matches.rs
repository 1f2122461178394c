//! The passive data holders: one record per recognized argument, and the
//! match result set for one level of the command line.

use vstd::prelude::*;

verus! {

/// Everything learned about one recognized argument across a whole parse:
/// how many times it occurred and the raw values attached to it, in order.
#[derive(Debug, Clone, PartialEq)]
pub struct MatchedArg {
    /// Incremented once per appearance of the argument on the command line.
    pub occurs: u64,
    /// The attached raw values, in the order they were attached.
    pub vals: Vec<String>,
}

impl MatchedArg {
    /// The attached values as character sequences, in attachment order.
    pub open spec fn vals_view(&self) -> Seq<Seq<char>> {
        Seq::new(self.vals@.len(), |i: int| self.vals@[i]@)
    }

    /// A fresh record: no occurrences counted yet, no values attached.
    pub fn new() -> (r: Self)
        ensures
            r.occurs == 0,
            r.vals@.len() == 0,
    {
        MatchedArg { occurs: 0, vals: Vec::new() }
    }
}

/// A nested subcommand match: the subcommand's name together with the match
/// result set of its own sub-line.
#[derive(Debug, PartialEq)]
pub struct SubCommand {
    pub name: String,
    pub matches: ArgMatches,
}

/// The outcome of matching one level of the command line: the records keyed
/// by argument name, an optional rendered usage string, and at most one
/// nested subcommand match.
#[derive(Debug, PartialEq)]
pub struct ArgMatches {
    /// Records in insertion order; names are unique (see `wf`).
    pub args: Vec<(String, MatchedArg)>,
    pub usage: Option<String>,
    pub subcommand: Option<Box<SubCommand>>,
}

impl ArgMatches {
    /// The recorded argument names, in record order.
    pub open spec fn names(&self) -> Seq<Seq<char>> {
        Seq::new(self.args@.len(), |i: int| self.args@[i].0@)
    }

    /// Well-formed: no argument name is recorded twice.
    pub open spec fn wf(&self) -> bool {
        forall|i: int, j: int|
            0 <= i < j < self.args@.len() ==> self.args@[i].0@ != self.args@[j].0@
    }

    /// Whether a record for `name` exists.
    pub open spec fn contains_name(&self, name: Seq<char>) -> bool {
        exists|i: int| 0 <= i < self.args@.len() && self.args@[i].0@ == name
    }

    /// The index of the record for `name`; meaningful only when such a
    /// record exists.
    pub open spec fn index_of(&self, name: Seq<char>) -> int {
        choose|i: int| 0 <= i < self.args@.len() && self.args@[i].0@ == name
    }

    /// The record held for `name`; meaningful only when such a record exists.
    pub open spec fn record_of(&self, name: Seq<char>) -> MatchedArg {
        self.args@[self.index_of(name)].1
    }

    /// The name of the recorded subcommand, if any.
    pub open spec fn subcommand_name_view(&self) -> Option<Seq<char>> {
        match self.subcommand {
            Some(sc) => Some((*sc).name@),
            None => None,
        }
    }
}

impl Default for ArgMatches {
    /// An empty match result set: no records, no usage string, no subcommand.
    fn default() -> (r: Self)
        ensures
            r.args@.len() == 0,
            r.usage is None,
            r.subcommand is None,
    {
        ArgMatches { args: Vec::new(), usage: None, subcommand: None }
    }
}

/// In a well-formed match result set, any index holding `name` is the one
/// `index_of` picks, so `record_of(name)` is the record stored there.
pub proof fn lemma_index_of_unique(m: &ArgMatches, name: Seq<char>, i: int)
    requires
        m.wf(),
        0 <= i < m.args@.len(),
        m.args@[i].0@ == name,
    ensures
        m.contains_name(name),
        m.index_of(name) == i,
{
    assert(m.contains_name(name));
    let j = m.index_of(name);
    assert(0 <= j < m.args@.len() && m.args@[j].0@ == name);
    if i < j {
        assert(m.args@[i].0@ != m.args@[j].0@);
    } else if j < i {
        assert(m.args@[j].0@ != m.args@[i].0@);
    }
}

/// Appending a record under a name not yet recorded keeps the set
/// well-formed, adds exactly that name, and leaves all other records where
/// they were.
pub proof fn lemma_push_fresh(m_old: &ArgMatches, m_new: &ArgMatches, key: Seq<char>, rec: MatchedArg)
    requires
        m_old.wf(),
        !m_old.contains_name(key),
        m_new.args@.len() == m_old.args@.len() + 1,
        forall|j: int| 0 <= j < m_old.args@.len() ==> m_new.args@[j] == m_old.args@[j],
        m_new.args@[m_old.args@.len() as int].0@ == key,
        m_new.args@[m_old.args@.len() as int].1 == rec,
    ensures
        m_new.wf(),
        m_new.names() =~= m_old.names().push(key),
        forall|n: Seq<char>| #[trigger] m_new.contains_name(n) <==> (m_old.contains_name(n) || n == key),
        forall|n: Seq<char>| m_old.contains_name(n) && n != key ==> m_new.record_of(n) == m_old.record_of(n),
        m_new.record_of(key) == rec,
{
    let len = m_old.args@.len() as int;
    assert forall|i: int, j: int| 0 <= i < j < m_new.args@.len() implies
        m_new.args@[i].0@ != m_new.args@[j].0@
    by {
        if j < len {
            assert(m_old.args@[i].0@ != m_old.args@[j].0@);
        } else {
            if m_new.args@[i].0@ == key {
                assert(0 <= i < m_old.args@.len() && m_old.args@[i].0@ == key);
                assert(m_old.contains_name(key));
            }
        }
    }
    assert forall|n: Seq<char>| #[trigger] m_new.contains_name(n) implies
        (m_old.contains_name(n) || n == key)
    by {
        let w = choose|w: int| 0 <= w < m_new.args@.len() && m_new.args@[w].0@ == n;
        if w < len {
            assert(0 <= w < m_old.args@.len() && m_old.args@[w].0@ == n);
        }
    }
    assert forall|n: Seq<char>| m_old.contains_name(n) || n == key implies
        #[trigger] m_new.contains_name(n)
    by {
        if n == key {
            assert(m_new.args@[len].0@ == n);
        } else {
            let w = choose|w: int| 0 <= w < m_old.args@.len() && m_old.args@[w].0@ == n;
            assert(m_new.args@[w].0@ == n);
        }
    }
    assert forall|n: Seq<char>| m_old.contains_name(n) && n != key implies
        m_new.record_of(n) == m_old.record_of(n)
    by {
        let w = m_old.index_of(n);
        assert(0 <= w < m_old.args@.len() && m_old.args@[w].0@ == n);
        assert(m_new.args@[w].0@ == n);
        lemma_index_of_unique(m_new, n, w);
    }
    assert(m_new.args@[len].0@ == key);
    lemma_index_of_unique(m_new, key, len);
}

/// Replacing the record at one index while keeping its name preserves
/// well-formedness, the recorded names, and every other record.
pub proof fn lemma_update_at(m_old: &ArgMatches, m_new: &ArgMatches, i: int, rec: MatchedArg)
    requires
        m_old.wf(),
        0 <= i < m_old.args@.len(),
        m_new.args@ == m_old.args@.update(i, (m_old.args@[i].0, rec)),
    ensures
        m_new.wf(),
        m_new.names() =~= m_old.names(),
        forall|n: Seq<char>| #[trigger] m_new.contains_name(n) <==> m_old.contains_name(n),
        forall|n: Seq<char>| m_old.contains_name(n) && n != m_old.args@[i].0@ ==>
            m_new.record_of(n) == m_old.record_of(n),
        m_new.record_of(m_old.args@[i].0@) == rec,
{
    assert forall|j: int| 0 <= j < m_new.args@.len() implies
        m_new.args@[j].0@ == m_old.args@[j].0@
    by {
    }
    assert forall|i2: int, j2: int| 0 <= i2 < j2 < m_new.args@.len() implies
        m_new.args@[i2].0@ != m_new.args@[j2].0@
    by {
        assert(m_old.args@[i2].0@ != m_old.args@[j2].0@);
    }
    assert forall|n: Seq<char>| #[trigger] m_new.contains_name(n) implies m_old.contains_name(n)
    by {
        let w = choose|w: int| 0 <= w < m_new.args@.len() && m_new.args@[w].0@ == n;
        assert(m_old.args@[w].0@ == n);
    }
    assert forall|n: Seq<char>| m_old.contains_name(n) implies #[trigger] m_new.contains_name(n)
    by {
        let w = choose|w: int| 0 <= w < m_old.args@.len() && m_old.args@[w].0@ == n;
        assert(m_new.args@[w].0@ == n);
    }
    assert forall|n: Seq<char>| m_old.contains_name(n) && n != m_old.args@[i].0@ implies
        m_new.record_of(n) == m_old.record_of(n)
    by {
        let w = m_old.index_of(n);
        assert(0 <= w < m_old.args@.len() && m_old.args@[w].0@ == n);
        assert(w != i);
        assert(m_new.args@[w].0@ == n);
        lemma_index_of_unique(m_new, n, w);
        assert(m_new.args@[w].1 == m_old.args@[w].1);
    }
    assert(m_new.args@[i].0@ == m_old.args@[i].0@);
    lemma_index_of_unique(m_new, m_old.args@[i].0@, i);
}

/// Deleting the record at one index preserves well-formedness, removes
/// exactly its name, and leaves every other record untouched.
pub proof fn lemma_remove_at(m_old: &ArgMatches, m_new: &ArgMatches, i: int)
    requires
        m_old.wf(),
        0 <= i < m_old.args@.len(),
        m_new.args@ == m_old.args@.remove(i),
    ensures
        m_new.wf(),
        m_new.names() =~= m_old.names().remove(i),
        forall|n: Seq<char>| #[trigger] m_new.contains_name(n) <==> (m_old.contains_name(n) && n != m_old.args@[i].0@),
        forall|n: Seq<char>| m_old.contains_name(n) && n != m_old.args@[i].0@ ==>
            m_new.record_of(n) == m_old.record_of(n),
{
    m_old.args@.remove_ensures(i);
    assert forall|j: int| 0 <= j < m_new.args@.len() implies
        m_new.args@[j] == (if j < i { m_old.args@[j] } else { m_old.args@[j + 1] })
    by {
    }
    assert forall|i2: int, j2: int| 0 <= i2 < j2 < m_new.args@.len() implies
        m_new.args@[i2].0@ != m_new.args@[j2].0@
    by {
        let oi = if i2 < i { i2 } else { i2 + 1 };
        let oj = if j2 < i { j2 } else { j2 + 1 };
        assert(m_old.args@[oi].0@ != m_old.args@[oj].0@);
    }
    assert forall|n: Seq<char>| #[trigger] m_new.contains_name(n) implies
        (m_old.contains_name(n) && n != m_old.args@[i].0@)
    by {
        let w = choose|w: int| 0 <= w < m_new.args@.len() && m_new.args@[w].0@ == n;
        let ow = if w < i { w } else { w + 1 };
        assert(m_old.args@[ow].0@ == n);
        if n == m_old.args@[i].0@ {
            assert(ow != i);
            if ow < i {
                assert(m_old.args@[ow].0@ != m_old.args@[i].0@);
            } else {
                assert(m_old.args@[i].0@ != m_old.args@[ow].0@);
            }
        }
    }
    assert forall|n: Seq<char>| m_old.contains_name(n) && n != m_old.args@[i].0@ implies
        #[trigger] m_new.contains_name(n)
    by {
        let w = choose|w: int| 0 <= w < m_old.args@.len() && m_old.args@[w].0@ == n;
        assert(w != i);
        let nw = if w < i { w } else { w - 1 };
        assert(m_new.args@[nw].0@ == n);
    }
    assert forall|n: Seq<char>| m_old.contains_name(n) && n != m_old.args@[i].0@ implies
        m_new.record_of(n) == m_old.record_of(n)
    by {
        let w = m_old.index_of(n);
        assert(0 <= w < m_old.args@.len() && m_old.args@[w].0@ == n);
        assert(w != i);
        let nw = if w < i { w } else { w - 1 };
        assert(m_new.args@[nw].0@ == n);
        lemma_index_of_unique(m_new, n, nw);
        assert(m_new.args@[nw].1 == m_old.args@[w].1);
    }
    assert(m_new.names() =~= m_old.names().remove(i));
}

} // verus!
