//! Hierarchical action names, and the trait connecting an application's
//! action type to them.

use vstd::prelude::*;

verus! {

broadcast use vstd::std_specs::vec::group_vec_axioms;

/// The text of a sequence of segments joined by `'.'`.
pub open spec fn dotted(parts: Seq<Seq<char>>) -> Seq<char>
    decreases parts.len(),
{
    if parts.len() == 0 {
        Seq::empty()
    } else if parts.len() == 1 {
        parts[0]
    } else {
        dotted(parts.drop_last()) + seq!['.'] + parts.last()
    }
}

/// A unique name of an action: an ordered path of string segments, such as
/// `Post.Delete`.
#[derive(Debug)]
pub struct ActionName(pub Vec<String>);

impl View for ActionName {
    type V = Seq<Seq<char>>;

    open spec fn view(&self) -> Seq<Seq<char>> {
        self.0.deep_view()
    }
}

impl ActionName {
    /// Renders this name as its segments joined by `'.'`.
    pub fn to_string(&self) -> (r: String)
        ensures
            r@ == dotted(self@),
    {
        let mut out = String::new();
        let mut i: usize = 0;
        assert(out@ =~= dotted(self@.take(0)));
        while i < self.0.len()
            invariant
                0 <= i <= self@.len(),
                self@.len() == self.0@.len(),
                forall|j: int| 0 <= j < self@.len() ==> self@[j] == self.0@[j]@,
                out@ == dotted(self@.take(i as int)),
            decreases self@.len() - i,
        {
            if i > 0 {
                out.append(".");
            }
            out.append(self.0[i].as_str());
            assert(out@ =~= dotted(self@.take(i as int + 1))) by {
                reveal_strlit(".");
                assert("."@ =~= seq!['.']);
                let upto = self@.take(i as int + 1);
                assert(upto.drop_last() =~= self@.take(i as int));
                assert(upto.last() == self@[i as int]);
                assert(upto[0] == self@[0]);
            }
            i += 1;
        }
        assert(self@.take(self@.len() as int) =~= self@);
        out
    }
}

impl Clone for ActionName {
    /// Clones the name, keeping its segments.
    fn clone(&self) -> (r: ActionName)
        ensures
            r@ == self@,
    {
        ActionName(self.0.clone())
    }
}

impl Default for ActionName {
    /// The empty action name.
    fn default() -> (r: ActionName)
        ensures
            r@ == Seq::<Seq<char>>::empty(),
    {
        let r = ActionName(Vec::new());
        assert(r@ =~= Seq::<Seq<char>>::empty());
        r
    }
}

/// An action that can be allowed or denied: anything with a full hierarchical
/// name.
pub trait Action {
    /// The full name of this action, as the abstract path it resolves to.
    spec fn spec_name(&self) -> Seq<Seq<char>>;

    /// The full name of this action.
    fn name(&self) -> (n: ActionName)
        ensures
            n@ == self.spec_name(),
    ;
}

impl Action for () {
    open spec fn spec_name(&self) -> Seq<Seq<char>> {
        Seq::empty()
    }

    fn name(&self) -> (n: ActionName) {
        let n = ActionName(Vec::new());
        assert(n@ =~= Seq::<Seq<char>>::empty());
        n
    }
}

} // verus!
