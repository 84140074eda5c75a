use vstd::prelude::*;

verus! {

/// A tagged property value.
#[derive(Debug, PartialEq, Eq)]
pub enum Value {
    Empty,
    Boolean(bool),
    I64(i64),
    U64(u64),
    String(String),
}

/// The mathematical form of a `Value`.
pub enum ValueView {
    Empty,
    Boolean(bool),
    I64(i64),
    U64(u64),
    Str(Seq<char>),
}

impl View for Value {
    type V = ValueView;

    open spec fn view(&self) -> ValueView {
        match self {
            Value::Empty => ValueView::Empty,
            Value::Boolean(b) => ValueView::Boolean(*b),
            Value::I64(i) => ValueView::I64(*i),
            Value::U64(u) => ValueView::U64(*u),
            Value::String(s) => ValueView::Str(s@),
        }
    }
}

pub type PropsView = Seq<(Seq<char>, ValueView)>;

pub open spec fn props_view(ps: Seq<(String, Value)>) -> PropsView {
    ps.map_values(|p: (String, Value)| (p.0@, p.1@))
}

/// The value bound to `k`: a later entry overrides an earlier one with the same name,
/// so the sequence reads as a map with unique keys.
pub open spec fn lookup(ps: PropsView, k: Seq<char>) -> Option<ValueView>
    decreases ps.len(),
{
    if ps.len() == 0 {
        None
    } else if ps.last().0 == k {
        Some(ps.last().1)
    } else {
        lookup(ps.drop_last(), k)
    }
}

/// The position of the last entry named `k`.
pub open spec fn index_of(ps: PropsView, k: Seq<char>) -> Option<int>
    decreases ps.len(),
{
    if ps.len() == 0 {
        None
    } else if ps.last().0 == k {
        Some(ps.len() - 1)
    } else {
        index_of(ps.drop_last(), k)
    }
}

/// No two entries share a name.
pub open spec fn unique_names(ps: PropsView) -> bool {
    forall|i: int, j: int| 0 <= i < j < ps.len() ==> ps[i].0 != ps[j].0
}

/// The properties as a map with unique names: each entry, in turn, replaces the
/// entry of the same name in place or is added at the end.
pub open spec fn collected(ps: PropsView) -> PropsView
    decreases ps.len(),
{
    if ps.len() == 0 {
        Seq::empty()
    } else {
        let c = collected(ps.drop_last());
        match index_of(c, ps.last().0) {
            Some(j) => c.update(j, ps.last()),
            None => c.push(ps.last()),
        }
    }
}

proof fn lemma_index_of(ps: PropsView, k: Seq<char>)
    ensures
        match index_of(ps, k) {
            Some(j) => 0 <= j < ps.len() && ps[j].0 == k && lookup(ps, k) == Some(ps[j].1),
            None => lookup(ps, k) is None && forall|j: int| 0 <= j < ps.len() ==> ps[j].0 != k,
        },
    decreases ps.len(),
{
    if ps.len() > 0 {
        lemma_index_of(ps.drop_last(), k);
        if ps.last().0 != k {
            if index_of(ps.drop_last(), k) is None {
                assert forall|j: int| 0 <= j < ps.len() implies ps[j].0 != k by {
                    if j < ps.len() - 1 {
                        assert(ps[j] == ps.drop_last()[j]);
                    }
                }
            }
        }
    }
}

proof fn lemma_unique_lookup(ps: PropsView, j: int)
    requires
        unique_names(ps),
        0 <= j < ps.len(),
    ensures
        lookup(ps, ps[j].0) == Some(ps[j].1),
    decreases ps.len(),
{
    if j < ps.len() - 1 {
        assert(ps.drop_last()[j] == ps[j]);
        assert(ps.last().0 != ps[j].0);
        lemma_unique_lookup(ps.drop_last(), j);
    }
}

proof fn lemma_absent_lookup(ps: PropsView, k: Seq<char>)
    requires
        forall|j: int| 0 <= j < ps.len() ==> ps[j].0 != k,
    ensures
        lookup(ps, k) is None,
    decreases ps.len(),
{
    if ps.len() > 0 {
        assert(ps.last() == ps[ps.len() - 1]);
        assert forall|j: int| 0 <= j < ps.drop_last().len() implies ps.drop_last()[j].0 != k by {
            assert(ps.drop_last()[j] == ps[j]);
        }
        lemma_absent_lookup(ps.drop_last(), k);
    }
}

/// Collecting keeps one entry per name, and each name keeps the last value given.
pub proof fn lemma_collected(ps: PropsView)
    ensures
        unique_names(collected(ps)),
        forall|k: Seq<char>| #[trigger] lookup(collected(ps), k) == lookup(ps, k),
    decreases ps.len(),
{
    if ps.len() > 0 {
        let c = collected(ps.drop_last());
        lemma_collected(ps.drop_last());
        let e = ps.last();
        lemma_index_of(c, e.0);
        let d = collected(ps);
        assert forall|i: int, j: int| 0 <= i < j < d.len() implies d[i].0 != d[j].0 by {
            if j == c.len() {
                assert(d[i] == c[i]);
            }
        }
        assert forall|k: Seq<char>| #[trigger] lookup(d, k) == lookup(ps, k) by {
            if k == e.0 {
                let j = if index_of(c, e.0) is Some { index_of(c, e.0)->Some_0 } else { c.len() as int };
                assert(d[j] == e);
                lemma_unique_lookup(d, j);
            } else {
                assert(lookup(ps, k) == lookup(ps.drop_last(), k));
                lemma_index_of(c, k);
                match index_of(c, k) {
                    Some(j) => {
                        assert(d[j] == c[j]);
                        lemma_unique_lookup(d, j);
                    },
                    None => {
                        assert forall|j: int| 0 <= j < d.len() implies d[j].0 != k by {
                            if j < c.len() && j != index_of(c, e.0)->Some_0 {
                                assert(d[j] == c[j]);
                            }
                        }
                        lemma_absent_lookup(d, k);
                    },
                }
            }
        }
    }
}

/// Collects properties so that each name appears once, with the last value given.
pub fn collect_properties(properties: Vec<(String, Value)>) -> (r: Vec<(String, Value)>)
    ensures
        props_view(r@) == collected(props_view(properties@)),
        unique_names(props_view(r@)),
        forall|k: Seq<char>| #[trigger] lookup(props_view(r@), k) == lookup(props_view(properties@), k),
{
    let mut out: Vec<(String, Value)> = Vec::new();
    let mut input = properties;
    let ghost all = props_view(input@);
    assert(all.subrange(0, all.len() as int) =~= all);
    let total = input.len();
    let mut i: usize = 0;
    while input.len() > 0
        invariant
            all.len() == total,
            i + input@.len() == all.len(),
            props_view(input@) == all.subrange(i as int, all.len() as int),
            props_view(out@) == collected(all.subrange(0, i as int)),
        decreases input@.len(),
    {
        let ghost pi = props_view(input@);
        let (k, v) = input.remove(0);
        let ghost e = (k@, v@);
        assert(e == all[i as int]) by {
            assert(pi[0] == all[i as int]);
        }
        assert(props_view(input@) =~= all.subrange(i + 1, all.len() as int)) by {
            assert(props_view(input@) =~= pi.subrange(1, pi.len() as int));
        }
        let ghost c = props_view(out@);
        let ghost pre = all.subrange(0, i + 1);
        assert(pre.drop_last() =~= all.subrange(0, i as int));
        let mut j: usize = out.len();
        let mut found = false;
        assert(c.subrange(0, j as int) =~= c);
        while j > 0 && !found
            invariant
                j <= out@.len(),
                c == props_view(out@),
                !found ==> index_of(c, e.0) == index_of(c.subrange(0, j as int), e.0),
                found ==> j < out@.len() && index_of(c, e.0) == Some(j as int),
                k@ == e.0,
            decreases j + (if found { 0int } else { 1int }),
        {
            let ghost sub = c.subrange(0, j as int);
            assert(sub.drop_last() =~= c.subrange(0, j - 1));
            if out[j - 1].0.eq(&k) {
                found = true;
            }
            j = j - 1;
        }
        if !found {
            assert(c.subrange(0, 0) =~= Seq::<(Seq<char>, crate::value::ValueView)>::empty());
        }
        if found {
            out.set(j, (k, v));
            assert(props_view(out@) =~= c.update(j as int, e));
        } else {
            out.push((k, v));
            assert(props_view(out@) =~= c.push(e));
        }
        i = i + 1;
    }
    assert(all.subrange(0, i as int) =~= all);
    proof {
        lemma_collected(all);
    }
    out
}

/// A labelled graph node with its properties.
#[derive(Debug, PartialEq, Eq)]
pub struct Node {
    pub id: u128,
    pub label: String,
    pub properties: Vec<(String, Value)>,
}

pub struct NodeView {
    pub id: u128,
    pub label: Seq<char>,
    pub properties: PropsView,
}

impl View for Node {
    type V = NodeView;

    open spec fn view(&self) -> NodeView {
        NodeView { id: self.id, label: self.label@, properties: props_view(self.properties@) }
    }
}

impl Node {
    /// The value of property `key`, if the node has it.
    pub fn check_property(&self, key: &str) -> (r: Option<&Value>)
        ensures
            match r {
                Some(v) => lookup(self@.properties, key@) == Some(v@),
                None => lookup(self@.properties, key@) is None,
            },
    {
        let k: String = key.to_owned();
        let mut i: usize = self.properties.len();
        assert(self.properties@.subrange(0, i as int) =~= self.properties@);
        while i > 0
            invariant
                i <= self.properties@.len(),
                k@ == key@,
                lookup(props_view(self.properties@), key@) == lookup(props_view(self.properties@.subrange(0, i as int)), key@),
            decreases i,
        {
            let ghost pre = props_view(self.properties@.subrange(0, i as int));
            assert(pre.drop_last() =~= props_view(self.properties@.subrange(0, i - 1)));
            assert(pre.len() == i);
            assert(pre[i - 1] == (self.properties@[i - 1].0@, self.properties@[i - 1].1@));
            if self.properties[i - 1].0.eq(&k) {
                return Some(&self.properties[i - 1].1);
            }
            i = i - 1;
        }
        None
    }
}

} // verus!
