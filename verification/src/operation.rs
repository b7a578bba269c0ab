//! The closed set of database operations, and the non-empty operation
//! lists that commits carry.

use vstd::prelude::*;

verus! {

/// One database operation class. Writes land in the commit log; reads,
/// subscriptions and validations do not.
#[derive(Debug, Clone, Copy, PartialEq, Eq, PartialOrd, Ord, Hash, Structural)]
pub enum SemaOperation {
    Assert,
    Mutate,
    Retract,
    Match,
    Subscribe,
    Validate,
}

/// The word that stands for an operation in logged records.
pub open spec fn record_head(operation: SemaOperation) -> Seq<char> {
    match operation {
        SemaOperation::Assert => "Assert"@,
        SemaOperation::Mutate => "Mutate"@,
        SemaOperation::Retract => "Retract"@,
        SemaOperation::Match => "Match"@,
        SemaOperation::Subscribe => "Subscribe"@,
        SemaOperation::Validate => "Validate"@,
    }
}

impl SemaOperation {
    pub fn as_record_head(&self) -> (head: &'static str)
        ensures
            head@ == record_head(*self),
    {
        match self {
            SemaOperation::Assert => "Assert",
            SemaOperation::Mutate => "Mutate",
            SemaOperation::Retract => "Retract",
            SemaOperation::Match => "Match",
            SemaOperation::Subscribe => "Subscribe",
            SemaOperation::Validate => "Validate",
        }
    }
}

/// Operations are told apart by their words.
pub proof fn lemma_record_head_injective(a: SemaOperation, b: SemaOperation)
    requires
        record_head(a) == record_head(b),
    ensures
        a == b,
{
    reveal_strlit("Assert");
    reveal_strlit("Mutate");
    reveal_strlit("Retract");
    reveal_strlit("Match");
    reveal_strlit("Subscribe");
    reveal_strlit("Validate");
    assert("Assert"@[0] == 'A');
    assert("Mutate"@[1] == 'u');
    assert("Retract"@[0] == 'R');
    assert("Match"@[1] == 'a');
    assert("Match"@[0] == 'M');
    assert("Mutate"@[0] == 'M');
    assert("Subscribe"@[0] == 'S');
    assert("Validate"@[0] == 'V');
}

/// A list with at least one item.
#[derive(Debug, PartialEq, Eq)]
pub struct NonEmpty<T> {
    items: Vec<T>,
}

impl<T> View for NonEmpty<T> {
    type V = Seq<T>;

    closed spec fn view(&self) -> Seq<T> {
        self.items@
    }
}

impl<T> NonEmpty<T> {
    #[verifier::type_invariant]
    pub closed spec fn has_item(self) -> bool {
        self.items@.len() >= 1
    }

    pub fn single(head: T) -> (list: Self)
        ensures
            list@ == seq![head],
    {
        let mut items: Vec<T> = Vec::new();
        items.push(head);
        let list = NonEmpty { items };
        assert(list@ =~= seq![head]);
        list
    }

    pub fn from_head_and_tail(head: T, tail: Vec<T>) -> (list: Self)
        ensures
            list@ == seq![head] + tail@,
    {
        let mut rest: Vec<T> = tail;
        let mut items: Vec<T> = Vec::new();
        items.push(head);
        items.append(&mut rest);
        let list = NonEmpty { items };
        assert(list@ =~= seq![head] + tail@);
        list
    }

    /// The list of a vector's items; `None` for an empty vector.
    pub fn try_from_vec(items: Vec<T>) -> (list: Option<Self>)
        ensures
            match list {
                Some(list) => list@ == items@ && items@.len() >= 1,
                None => items@.len() == 0,
            },
    {
        if items.len() == 0 {
            None
        } else {
            Some(NonEmpty { items })
        }
    }

    pub fn head(&self) -> (item: &T)
        ensures
            self@.len() >= 1,
            *item == self@[0],
    {
        proof {
            use_type_invariant(self);
        }
        &self.items[0]
    }

    pub fn tail(&self) -> (items: &[T])
        ensures
            items@ == self@.skip(1),
    {
        proof {
            use_type_invariant(self);
        }
        let items = vstd::slice::slice_subrange(self.items.as_slice(), 1, self.items.len());
        assert(items@ =~= self@.skip(1));
        items
    }

    pub fn len(&self) -> (len: usize)
        ensures
            len == self@.len(),
            len >= 1,
    {
        proof {
            use_type_invariant(self);
        }
        self.items.len()
    }

    pub fn get(&self, at: usize) -> (item: &T)
        requires
            at < self@.len(),
        ensures
            *item == self@[at as int],
    {
        &self.items[at]
    }
}

impl<T: Clone> Clone for NonEmpty<T> {
    fn clone(&self) -> (copy: Self)
        ensures
            copy@.len() == self@.len(),
            forall|i: int| 0 <= i < self@.len() ==> cloned::<T>(#[trigger] self@[i], copy@[i]),
    {
        proof {
            use_type_invariant(self);
        }
        NonEmpty { items: self.items.clone() }
    }
}

} // verus!
