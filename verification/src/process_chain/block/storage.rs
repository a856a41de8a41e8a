//! Storage of hosts and the labels given to them.
use vstd::prelude::*;
use std::sync::Arc;
use crate::text::{
    Sep, chars_eq, chars_of, is_sep, lemma_split_sep_then_plain, lemma_split_without_sep, owned,
    split_all, string_views,
};
use vstd::string::StringExecFns;

verus! {

/// The pieces of `q` joined with `sep` between them.
pub open spec fn join(q: Seq<Seq<char>>, sep: char) -> Seq<char>
    decreases q.len(),
{
    if q.len() == 0 {
        Seq::empty()
    } else if q.len() == 1 {
        q[0]
    } else {
        join(q.drop_last(), sep).push(sep) + q.last()
    }
}

/// Lemma: pieces without commas, joined with commas, split back into
/// themselves.
pub proof fn lemma_split_join(q: Seq<Seq<char>>)
    requires
        q.len() >= 1,
        forall|i: int, j: int| 0 <= i < q.len() && 0 <= j < q[i].len() ==> #[trigger] q[i][j] != ',',
    ensures
        split_all(join(q, ','), Sep::Comma) == q,
    decreases q.len(),
{
    let last = q.last();
    assert(forall|j: int| 0 <= j < last.len() ==> !is_sep(Sep::Comma, #[trigger] last[j])) by {
        assert forall|j: int| 0 <= j < last.len() implies !is_sep(Sep::Comma, #[trigger] last[j]) by {
            assert(q[q.len() - 1][j] != ',');
        }
    }
    if q.len() == 1 {
        lemma_split_without_sep(q[0], Sep::Comma);
        assert(seq![q[0]] =~= q);
    } else {
        let d = q.drop_last();
        assert forall|i: int, j: int| 0 <= i < d.len() && 0 <= j < d[i].len() implies #[trigger] d[i][j]
            != ',' by {
            assert(d[i] == q[i]);
        }
        lemma_split_join(d);
        lemma_split_sep_then_plain(join(d, ','), ',', last, Sep::Comma);
        assert(d.push(last) =~= q);
    }
}

/// `s` is the labels of `labels`, each once, in some order, joined with
/// commas.
pub open spec fn joins_set(s: Seq<char>, labels: Set<Seq<char>>) -> bool {
    exists|q: Seq<Seq<char>>|
        #![trigger q.to_set()]
        q.to_set() == labels && q.no_duplicates() && join(q, ',') == s
}

/// A store of hosts, each with a set of labels.
pub trait HostStorage {
    /// Each host with its labels.
    spec fn host_map(&self) -> Map<Seq<char>, Set<Seq<char>>>;

    /// Records `host` with exactly `labels`.
    fn add_host(&mut self, host: &str, labels: Vec<String>)
        ensures
            final(self).host_map() == old(self).host_map().insert(
                host@,
                string_views(labels@).to_set(),
            ),
    ;

    /// The labels of `host`, joined with commas.
    fn get_labels(&self, host: &str) -> (r: Option<String>)
        ensures
            r is Some <==> self.host_map().contains_key(host@),
            r matches Some(s) ==> joins_set(s@, self.host_map()[host@]),
    ;

    /// Gives `host` the label `label`, recording the host if needed.
    fn set_label(&mut self, host: &str, label: &str)
        ensures
            final(self).host_map() == old(self).host_map().insert(
                host@,
                if old(self).host_map().contains_key(host@) {
                    old(self).host_map()[host@].insert(label@)
                } else {
                    set![label@]
                },
            ),
    ;

    /// Whether `host` is recorded.
    fn has_host(&self, host: &str) -> (r: bool)
        ensures
            r == self.host_map().contains_key(host@),
    ;
}

/// The hosts after `set_label(host, label)`, as the trait states it.
pub open spec fn with_label(
    m: Map<Seq<char>, Set<Seq<char>>>,
    host: Seq<char>,
    label: Seq<char>,
) -> Map<Seq<char>, Set<Seq<char>>> {
    m.insert(
        host,
        if m.contains_key(host) {
            m[host].insert(label)
        } else {
            set![label]
        },
    )
}

/// Law: after a label is set on a host, the store holds the host with
/// that label and the labels it had, and other hosts are untouched.
pub proof fn law_set_label_keeps_labels(
    m: Map<Seq<char>, Set<Seq<char>>>,
    host: Seq<char>,
    label: Seq<char>,
    other: Seq<char>,
)
    ensures
        with_label(m, host, label).contains_key(host),
        with_label(m, host, label)[host].contains(label),
        m.contains_key(host) ==> m[host].subset_of(with_label(m, host, label)[host]),
        other != host ==> with_label(m, host, label).contains_key(other) == m.contains_key(other),
        other != host && m.contains_key(other) ==> with_label(m, host, label)[other] == m[other],
{
}

/// A shared host store.
pub type HostStorageRef = Arc<Box<dyn HostStorage>>;

/// A new, empty host store held in memory.
pub fn new_memory_host_storage() -> (r: HostStorageRef)
    ensures
        r.host_map() == Map::<Seq<char>, Set<Seq<char>>>::empty(),
{
    let s = MemoryHostStorage::new();
    let b: Box<dyn HostStorage> = Box::new(s);
    assert((*b).host_map() == Map::<Seq<char>, Set<Seq<char>>>::empty());
    let r = Arc::new(b);
    assert((**r).host_map() == Map::<Seq<char>, Set<Seq<char>>>::empty());
    r
}

/// The map of a sequence of hosts and their labels; later entries win.
pub open spec fn entries_map(es: Seq<(Seq<char>, Seq<Seq<char>>)>) -> Map<
    Seq<char>,
    Set<Seq<char>>,
>
    decreases es.len(),
{
    if es.len() == 0 {
        Map::empty()
    } else {
        entries_map(es.drop_last()).insert(es.last().0, es.last().1.to_set())
    }
}

/// The hosts of `es` are distinct and so are the labels of each host.
pub open spec fn entries_wf(es: Seq<(Seq<char>, Seq<Seq<char>>)>) -> bool {
    &&& forall|i: int, j: int| 0 <= i < j < es.len() ==> es[i].0 != es[j].0
    &&& forall|i: int| 0 <= i < es.len() ==> (#[trigger] es[i]).1.no_duplicates()
}

/// Lemma: in well-formed entries the map holds a host exactly when an
/// entry names it, with that entry's labels.
pub proof fn lemma_entries_map(es: Seq<(Seq<char>, Seq<Seq<char>>)>, h: Seq<char>)
    requires
        forall|i: int, j: int| 0 <= i < j < es.len() ==> es[i].0 != es[j].0,
    ensures
        entries_map(es).contains_key(h) <==> exists|i: int| 0 <= i < es.len() && es[i].0 == h,
        forall|i: int| 0 <= i < es.len() && es[i].0 == h ==> entries_map(es)[h] == es[i].1.to_set(),
    decreases es.len(),
{
    if es.len() > 0 {
        let d = es.drop_last();
        assert forall|i: int, j: int| 0 <= i < j < d.len() implies d[i].0 != d[j].0 by {
            assert(d[i] == es[i] && d[j] == es[j]);
        }
        lemma_entries_map(d, h);
        if entries_map(es).contains_key(h) {
            if h == es.last().0 {
                assert(es[es.len() - 1].0 == h);
            } else {
                let i = choose|i: int| 0 <= i < d.len() && d[i].0 == h;
                assert(es[i] == d[i]);
            }
        }
        if exists|i: int| 0 <= i < es.len() && es[i].0 == h {
            let i = choose|i: int| 0 <= i < es.len() && es[i].0 == h;
            if i < es.len() - 1 {
                assert(d[i] == es[i]);
            }
        }
        assert forall|i: int| 0 <= i < es.len() && es[i].0 == h implies entries_map(es)[h]
            == es[i].1.to_set() by {
            if i < es.len() - 1 {
                assert(d[i] == es[i]);
                assert(es[i].0 != es[es.len() - 1].0);
            }
        }
    }
}

/// Lemma: replacing the entry of an existing host replaces its labels in
/// the map.
pub proof fn lemma_entries_map_update(
    es: Seq<(Seq<char>, Seq<Seq<char>>)>,
    i: int,
    e: (Seq<char>, Seq<Seq<char>>),
)
    requires
        forall|a: int, b: int| 0 <= a < b < es.len() ==> es[a].0 != es[b].0,
        0 <= i < es.len(),
        es[i].0 == e.0,
    ensures
        entries_map(es.update(i, e)) == entries_map(es).insert(e.0, e.1.to_set()),
{
    let es2 = es.update(i, e);
    assert forall|a: int, b: int| 0 <= a < b < es2.len() implies es2[a].0 != es2[b].0 by {
        assert(es2[a].0 == es[a].0 && es2[b].0 == es[b].0);
    }
    let m1 = entries_map(es2);
    let m2 = entries_map(es).insert(e.0, e.1.to_set());
    assert forall|h: Seq<char>| #[trigger] m1.contains_key(h) == m2.contains_key(h) by {
        lemma_entries_map(es, h);
        lemma_entries_map(es2, h);
        if h != e.0 {
            if m2.contains_key(h) {
                let j = choose|j: int| 0 <= j < es.len() && es[j].0 == h;
                assert(es2[j].0 == h);
            }
            if m1.contains_key(h) {
                let j = choose|j: int| 0 <= j < es2.len() && es2[j].0 == h;
                assert(es[j].0 == h);
            }
        } else {
            assert(es2[i].0 == h);
        }
    }
    assert forall|h: Seq<char>| m1.contains_key(h) implies #[trigger] m1[h] == m2[h] by {
        lemma_entries_map(es, h);
        lemma_entries_map(es2, h);
        let j = choose|j: int| 0 <= j < es2.len() && es2[j].0 == h;
        if j != i {
            assert(es[j] == es2[j]);
        }
    }
    assert(m1 =~= m2);
}

/// Hosts and their labels, held in memory.
pub struct MemoryHostStorage {
    hosts: Vec<(String, Vec<String>)>,
}

impl MemoryHostStorage {
    /// The hosts and their labels, in the order they were recorded.
    pub closed spec fn entries(&self) -> Seq<(Seq<char>, Seq<Seq<char>>)> {
        self.hosts@.map_values(|e: (String, Vec<String>)| (e.0@, string_views(e.1@)))
    }

    #[verifier::type_invariant]
    closed spec fn wf(&self) -> bool {
        entries_wf(self.entries())
    }

    /// A new, empty store.
    pub fn new() -> (r: Self)
        ensures
            r.host_map() == Map::<Seq<char>, Set<Seq<char>>>::empty(),
            r.entries() == Seq::<(Seq<char>, Seq<Seq<char>>)>::empty(),
    {
        let r = Self { hosts: Vec::new() };
        assert(r.entries() =~= Seq::empty());
        r
    }

    fn find_host(&self, host: &Vec<char>) -> (r: Option<usize>)
        ensures
            r matches Some(i) ==> i < self.entries().len() && self.entries()[i as int].0 == host@,
            r is None ==> forall|i: int| 0 <= i < self.entries().len() ==> self.entries()[i].0 != host@,
    {
        let mut i: usize = 0;
        while i < self.hosts.len()
            invariant
                i <= self.hosts.len(),
                self.entries().len() == self.hosts.len(),
                forall|j: int| 0 <= j < i ==> self.entries()[j].0 != host@,
            decreases self.hosts.len() - i,
        {
            let h = chars_of(self.hosts[i].0.as_str());
            if chars_eq(&h, host) {
                return Some(i);
            }
            i = i + 1;
        }
        None
    }
}

fn contains_string(v: &Vec<String>, s: &Vec<char>) -> (r: bool)
    ensures
        r == string_views(v@).contains(s@),
{
    let mut i: usize = 0;
    while i < v.len()
        invariant
            i <= v.len(),
            forall|j: int| 0 <= j < i ==> v@[j]@ != s@,
        decreases v.len() - i,
    {
        let c = chars_of(v[i].as_str());
        if chars_eq(&c, s) {
            assert(string_views(v@)[i as int] == s@);
            return true;
        }
        i = i + 1;
    }
    assert forall|j: int| 0 <= j < v@.len() implies string_views(v@)[j] != s@ by {}
    false
}

/// `v` with each string kept once, first occurrences in order.
fn dedup_strings(v: Vec<String>) -> (r: Vec<String>)
    ensures
        string_views(r@).no_duplicates(),
        string_views(r@).to_set() == string_views(v@).to_set(),
{
    let mut out: Vec<String> = Vec::new();
    let mut i: usize = 0;
    while i < v.len()
        invariant
            i <= v.len(),
            string_views(out@).no_duplicates(),
            string_views(out@).to_set() == string_views(v@.take(i as int)).to_set(),
        decreases v.len() - i,
    {
        let c = chars_of(v[i].as_str());
        let ghost before = string_views(out@);
        if !contains_string(&out, &c) {
            out.push(owned(v[i].as_str()));
            assert(string_views(out@) =~= before.push(c@));
            proof {
                before.lemma_push_to_set_commute(c@);
                assert forall|a: int, b: int|
                    0 <= a < b < string_views(out@).len() implies string_views(out@)[a]
                    != string_views(out@)[b] by {
                    if b == before.len() {
                        assert(before[a] == string_views(out@)[a]);
                    }
                }
            }
        } else {
            assert(before.to_set().contains(c@));
            assert(before.to_set().insert(c@) =~= before.to_set());
        }
        let ghost taken = string_views(v@.take(i as int));
        assert(string_views(v@.take(i + 1)) =~= taken.push(c@));
        proof {
            taken.lemma_push_to_set_commute(c@);
        }
        i = i + 1;
    }
    assert(v@.take(v@.len() as int) =~= v@);
    out
}

/// The strings of `v` joined with commas.
fn join_commas(v: &Vec<String>) -> (r: String)
    ensures
        r@ == join(string_views(v@), ','),
{
    let mut r = String::new();
    let mut i: usize = 0;
    while i < v.len()
        invariant
            i <= v.len(),
            r@ == join(string_views(v@).take(i as int), ','),
        decreases v.len() - i,
    {
        let ghost q = string_views(v@).take(i + 1);
        assert(q.drop_last() =~= string_views(v@).take(i as int));
        if i > 0 {
            proof {
                reveal_strlit(",");
            }
            r.append(",");
        } else {
            assert(r@ =~= Seq::<char>::empty());
        }
        r.append(v[i].as_str());
        i = i + 1;
        assert(r@ =~= join(string_views(v@).take(i as int), ','));
    }
    assert(string_views(v@).take(v@.len() as int) =~= string_views(v@));
    r
}

impl HostStorage for MemoryHostStorage {
    open spec fn host_map(&self) -> Map<Seq<char>, Set<Seq<char>>> {
        entries_map(self.entries())
    }

    fn add_host(&mut self, host: &str, labels: Vec<String>) {
        proof {
            use_type_invariant(&*self);
        }
        let ghost old_es = self.entries();
        let hv = chars_of(host);
        let labels = dedup_strings(labels);
        let ghost e = (host@, string_views(labels@));
        let found = self.find_host(&hv);
        let mut hosts: Vec<(String, Vec<String>)> = Vec::new();
        std::mem::swap(&mut hosts, &mut self.hosts);
        assert(hosts@.map_values(|e: (String, Vec<String>)| (e.0@, string_views(e.1@))) == old_es);
        let entry = (owned(host), labels);
        match found {
            Some(i) => {
                hosts.set(i, entry);
                let ghost new_es = hosts@.map_values(
                    |e: (String, Vec<String>)| (e.0@, string_views(e.1@)),
                );
                assert(new_es =~= old_es.update(i as int, e));
                proof {
                    lemma_entries_map_update(old_es, i as int, e);
                    assert forall|a: int, b: int| 0 <= a < b < new_es.len() implies new_es[a].0
                        != new_es[b].0 by {
                        assert(new_es[a].0 == old_es[a].0 && new_es[b].0 == old_es[b].0);
                    }
                    assert forall|a: int| 0 <= a < new_es.len() implies (
                    #[trigger] new_es[a]).1.no_duplicates() by {
                        if a != i {
                            assert(new_es[a] == old_es[a]);
                        }
                    }
                }
            },
            None => {
                hosts.push(entry);
                let ghost new_es = hosts@.map_values(
                    |e: (String, Vec<String>)| (e.0@, string_views(e.1@)),
                );
                assert(new_es =~= old_es.push(e));
                assert(new_es.drop_last() =~= old_es);
                proof {
                    assert forall|a: int, b: int| 0 <= a < b < new_es.len() implies new_es[a].0
                        != new_es[b].0 by {
                        assert(new_es[a].0 == old_es[a].0);
                        if b < old_es.len() {
                            assert(new_es[b].0 == old_es[b].0);
                        }
                    }
                    assert forall|a: int| 0 <= a < new_es.len() implies (
                    #[trigger] new_es[a]).1.no_duplicates() by {
                        if a < old_es.len() {
                            assert(new_es[a] == old_es[a]);
                        }
                    }
                }
            },
        }
        self.hosts = hosts;
    }

    fn get_labels(&self, host: &str) -> (r: Option<String>) {
        proof {
            use_type_invariant(self);
        }
        let hv = chars_of(host);
        match self.find_host(&hv) {
            Some(i) => {
                let s = join_commas(&self.hosts[i].1);
                proof {
                    lemma_entries_map(self.entries(), host@);
                    let q = self.entries()[i as int].1;
                    assert(q == string_views(self.hosts@[i as int].1@));
                    assert(q.to_set() == self.host_map()[host@]);
                }
                Some(s)
            },
            None => {
                proof {
                    lemma_entries_map(self.entries(), host@);
                }
                None
            },
        }
    }

    fn set_label(&mut self, host: &str, label: &str) {
        proof {
            use_type_invariant(&*self);
        }
        let ghost old_es = self.entries();
        let hv = chars_of(host);
        let lv = chars_of(label);
        let found = self.find_host(&hv);
        proof {
            lemma_entries_map(old_es, host@);
        }
        match found {
            Some(i) => {
                let mut labels = self.hosts[i].1.clone();
                let ghost old_labels = string_views(self.hosts@[i as int].1@);
                assert(string_views(labels@) =~= old_labels);
                assert(old_es[i as int].1 == old_labels);
                if !contains_string(&labels, &lv) {
                    labels.push(owned(label));
                    assert(string_views(labels@) =~= old_labels.push(label@));
                    proof {
                        old_labels.lemma_push_to_set_commute(label@);
                    }
                } else {
                    assert(old_labels.to_set().contains(label@));
                    assert(old_labels.to_set().insert(label@) =~= old_labels.to_set());
                }
                self.add_host(host, labels);
            },
            None => {
                let mut labels: Vec<String> = Vec::new();
                labels.push(owned(label));
                assert(string_views(labels@) =~= seq![label@]);
                assert(seq![label@].to_set() =~= set![label@]) by {
                    assert(seq![label@][0] == label@);
                    assert(seq![label@].to_set().contains(label@));
                }
                self.add_host(host, labels);
            },
        }
    }

    fn has_host(&self, host: &str) -> (r: bool) {
        proof {
            use_type_invariant(self);
            lemma_entries_map(self.entries(), host@);
        }
        let hv = chars_of(host);
        self.find_host(&hv).is_some()
    }
}

/// A store of hosts in a database; not built yet.
pub struct HostStorageSQLite {}

} // verus!
