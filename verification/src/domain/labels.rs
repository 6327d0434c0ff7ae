//! Label categories: a category names a set of label values, and an
//! exclusive one allows an object to hold at most one of them.

use vstd::prelude::*;

use super::values::{copy_texts, texts, texts_contain};

verus! {

#[derive(Debug, PartialEq, Eq)]
pub struct Category {
    pub name: String,
    pub values: Vec<String>,
    pub exclusive: bool,
}

pub struct CategoryView {
    pub name: Seq<char>,
    pub values: Seq<Seq<char>>,
    pub exclusive: bool,
}

impl View for Category {
    type V = CategoryView;

    open spec fn view(&self) -> CategoryView {
        CategoryView { name: self.name@, values: texts(self.values@), exclusive: self.exclusive }
    }
}

/// The categories an operator declared, no name twice.
#[derive(Debug, PartialEq, Eq)]
pub struct Categories {
    list: Vec<Category>,
}

impl View for Categories {
    type V = Seq<CategoryView>;

    closed spec fn view(&self) -> Seq<CategoryView> {
        self.list@.map_values(|c: Category| c@)
    }
}

/// An object holding more than one value of an exclusive category.
#[derive(Debug, PartialEq, Eq)]
pub enum LabelViolation {
    Exclusive { category: String, held: Vec<String> },
}

/// The labels of `labels` that `c` declares, in label order.
pub open spec fn held_in(c: CategoryView, labels: Seq<Seq<char>>) -> Seq<Seq<char>> {
    labels.filter(|l: Seq<char>| c.values.contains(l))
}

/// The first exclusive category, in declaration order, of which `labels`
/// holds two or more values, with the values it holds.
pub open spec fn exclusive_violation(cats: Seq<CategoryView>, labels: Seq<Seq<char>>) -> Option<(Seq<char>, Seq<Seq<char>>)>
    decreases cats.len(),
{
    if cats.len() == 0 {
        None
    } else if cats[0].exclusive && held_in(cats[0], labels).len() > 1 {
        Some((cats[0].name, held_in(cats[0], labels)))
    } else {
        exclusive_violation(cats.drop_first(), labels)
    }
}

/// Labels keep the categories exactly when no exclusive category has two
/// or more of its values among them; a refusal names the first such
/// category, in declaration order, with the values of it held.
pub proof fn lemma_exclusive_categories_hold_one_value(cats: Seq<CategoryView>, labels: Seq<Seq<char>>)
    ensures
        exclusive_violation(cats, labels) is None <==> forall|i: int|
            0 <= i < cats.len() && (#[trigger] cats[i]).exclusive ==> held_in(cats[i], labels).len() <= 1,
        exclusive_violation(cats, labels) matches Some((n, held)) ==> exists|i: int|
            0 <= i < cats.len() && (#[trigger] cats[i]).exclusive && cats[i].name == n && held == held_in(
                cats[i],
                labels,
            ) && held.len() > 1 && forall|j: int|
                0 <= j < i && (#[trigger] cats[j]).exclusive ==> held_in(cats[j], labels).len() <= 1,
    decreases cats.len(),
{
    if cats.len() > 0 {
        let rest = cats.drop_first();
        lemma_exclusive_categories_hold_one_value(rest, labels);
        assert forall|i: int| 0 <= i < rest.len() implies #[trigger] rest[i] == cats[i + 1] by {}
        if cats[0].exclusive && held_in(cats[0], labels).len() > 1 {
            assert(cats[0].exclusive);
        } else {
            if exclusive_violation(rest, labels) is None {
                assert forall|i: int| 0 <= i < cats.len() && (#[trigger] cats[i]).exclusive implies held_in(
                    cats[i],
                    labels,
                ).len() <= 1 by {
                    if i > 0 {
                        assert(rest[i - 1] == cats[i]);
                    }
                }
            } else {
                let k = choose|k: int| 0 <= k < rest.len() && (#[trigger] rest[k]).exclusive && held_in(rest[k], labels).len() > 1;
                assert(cats[k + 1] == rest[k]);
            }
            if let Some((n, held)) = exclusive_violation(cats, labels) {
                let k = choose|k: int|
                    0 <= k < rest.len() && (#[trigger] rest[k]).exclusive && rest[k].name == n && held == held_in(
                        rest[k],
                        labels,
                    ) && held.len() > 1 && forall|j: int|
                        0 <= j < k && (#[trigger] rest[j]).exclusive ==> held_in(rest[j], labels).len() <= 1;
                assert(cats[k + 1] == rest[k]);
                assert forall|j: int| 0 <= j < k + 1 && (#[trigger] cats[j]).exclusive implies held_in(
                    cats[j],
                    labels,
                ).len() <= 1 by {
                    if j > 0 {
                        assert(rest[j - 1] == cats[j]);
                    }
                }
            }
        }
    }
}

/// Whether two categories share a name.
pub open spec fn names_repeat(cats: Seq<CategoryView>) -> bool {
    exists|i: int, j: int| 0 <= i < j < cats.len() && cats[i].name == cats[j].name
}

/// The labels of `labels` that `c` declares.
fn held_exec(c: &Category, labels: &Vec<String>) -> (r: Vec<String>)
    ensures
        texts(r@) == held_in(c@, texts(labels@)),
{
    let ghost p = |l: Seq<char>| c@.values.contains(l);
    let mut out: Vec<String> = Vec::new();
    let mut i: usize = 0;
    while i < labels.len()
        invariant
            i <= labels.len(),
            p == (|l: Seq<char>| c@.values.contains(l)),
            texts(out@) == texts(labels@).take(i as int).filter(p),
        decreases labels.len() - i,
    {
        proof {
            super::change::lemma_filter_push(texts(labels@).take(i as int), labels@[i as int]@, p);
            assert(texts(labels@).take(i + 1) =~= texts(labels@).take(i as int).push(labels@[i as int]@));
        }
        let held = texts_contain(&c.values, &labels[i]);
        if held {
            out.push(labels[i].clone());
            assert(texts(out@) =~= texts(out@).drop_last().push(labels@[i as int]@));
        }
        i = i + 1;
    }
    assert(texts(labels@).take(labels.len() as int) =~= texts(labels@));
    out
}

impl Categories {
    /// Declares `list`, refused when two categories share a name.
    pub fn new(list: Vec<Category>) -> (r: Result<Categories, String>)
        ensures
            r is Ok <==> !names_repeat(list@.map_values(|c: Category| c@)),
            r matches Ok(c) ==> c@ == list@.map_values(|c: Category| c@),
    {
        let ghost cats = list@.map_values(|c: Category| c@);
        let mut j: usize = 1;
        while j < list.len()
            invariant
                cats == list@.map_values(|c: Category| c@),
                1 <= j || list.len() == 0,
                j <= list.len() || list.len() == 0,
                forall|a: int, b: int| 0 <= a < b < j && b < cats.len() ==> cats[a].name != cats[b].name,
            decreases list.len() - j,
        {
            let mut i: usize = 0;
            while i < j
                invariant
                    cats == list@.map_values(|c: Category| c@),
                    1 <= j < list.len(),
                    i <= j,
                    forall|a: int, b: int| 0 <= a < b < j ==> cats[a].name != cats[b].name,
                    forall|a: int| 0 <= a < i ==> cats[a].name != cats[j as int].name,
                decreases j - i,
            {
                if list[i].name == list[j].name {
                    let mut name = String::from_str("category ");
                    name.append(list[j].name.as_str());
                    name.append(" is declared twice");
                    assert(cats[i as int].name == cats[j as int].name);
                    return Err(name);
                }
                i = i + 1;
            }
            j = j + 1;
        }
        Ok(Categories { list })
    }

    /// No categories at all.
    pub fn none() -> (c: Categories)
        ensures
            c@ == Seq::<CategoryView>::empty(),
    {
        let c = Categories { list: Vec::new() };
        assert(c@ =~= Seq::<CategoryView>::empty());
        c
    }

    /// The first category declared under `name`.
    pub fn category_of_name(&self, name: &String) -> (r: Option<&Category>)
        ensures
            r is Some <==> exists|i: int| 0 <= i < self@.len() && self@[i].name == name@,
            r matches Some(c) ==> c@.name == name@ && self@.contains(c@),
    {
        let mut i: usize = 0;
        while i < self.list.len()
            invariant
                i <= self.list.len(),
                forall|k: int| 0 <= k < i ==> #[trigger] self@[k].name != name@,
            decreases self.list.len() - i,
        {
            if self.list[i].name == *name {
                assert(self@[i as int] == self.list@[i as int]@);
                return Some(&self.list[i]);
            }
            i = i + 1;
        }
        None
    }

    /// Refuses `labels` when it holds two values of one exclusive category.
    pub fn check(&self, labels: &Vec<String>) -> (r: Result<(), LabelViolation>)
        ensures
            r is Ok <==> exclusive_violation(self@, texts(labels@)) is None,
            r matches Err(LabelViolation::Exclusive { category, held }) ==> exclusive_violation(
                self@,
                texts(labels@),
            ) == Some((category@, texts(held@))),
    {
        let mut i: usize = 0;
        assert(self@.skip(0) =~= self@);
        while i < self.list.len()
            invariant
                i <= self.list.len(),
                exclusive_violation(self@, texts(labels@)) == exclusive_violation(
                    self@.skip(i as int),
                    texts(labels@),
                ),
            decreases self.list.len() - i,
        {
            let c = &self.list[i];
            let held = held_exec(c, labels);
            assert(self@.skip(i as int)[0] == c@);
            if c.exclusive && held.len() > 1 {
                return Err(LabelViolation::Exclusive { category: c.name.clone(), held });
            }
            assert(self@.skip(i as int).drop_first() =~= self@.skip(i + 1));
            i = i + 1;
        }
        assert(self@.skip(i as int) =~= Seq::<CategoryView>::empty());
        Ok(())
    }
}

/// What a violation says, in words.
pub open spec fn violation_text(v: LabelViolationView) -> Seq<char> {
    "labels "@ + super::text::joined_with(v.held, ", "@) + " are exclusive in "@ + v.category
}

impl LabelViolation {
    /// What the violation says, in words.
    pub fn message(&self) -> (r: String)
        ensures
            r@ == violation_text(self@),
    {
        match self {
            LabelViolation::Exclusive { category, held } => {
                let mut out = String::from_str("labels ");
                out.append(super::text::join_texts(held, ", ").as_str());
                out.append(" are exclusive in ");
                out.append(category.as_str());
                out
            },
        }
    }

    pub fn copy(&self) -> (r: LabelViolation)
        ensures
            r@ == self@,
    {
        match self {
            LabelViolation::Exclusive { category, held } => LabelViolation::Exclusive {
                category: category.clone(),
                held: copy_texts(held),
            },
        }
    }
}

/// A violation as values: the category and the labels held of it.
pub struct LabelViolationView {
    pub category: Seq<char>,
    pub held: Seq<Seq<char>>,
}

impl View for LabelViolation {
    type V = LabelViolationView;

    open spec fn view(&self) -> LabelViolationView {
        match self {
            LabelViolation::Exclusive { category, held } => LabelViolationView {
                category: category@,
                held: texts(held@),
            },
        }
    }
}

} // verus!
