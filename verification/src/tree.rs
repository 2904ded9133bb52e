//! The category tree the navigator descends.
//!
//! A node is an ordered list of named children; a child with no subtree
//! under its key is a leaf. The navigator only ever asks a node for its
//! children's keys and for the subtree under one key, and never mutates it.

use vstd::prelude::*;

verus! {

/// One named child: the key, and the subtree under it, if any.
pub struct Child {
    /// The key that selects this child; unique among its siblings.
    pub key: String,
    /// The subtree under the key, or `None` when the child is a leaf.
    pub sub: Option<Tree>,
}

/// A node of the category tree: its children, in presentation order.
pub struct Tree {
    /// The named children of this node.
    pub children: Vec<Child>,
}

/// The keys of `t`'s children, in order.
pub open spec fn keys_spec(t: Tree) -> Seq<Seq<char>> {
    t.children@.map_values(|c: Child| c.key@)
}

/// The subtree under the first child of `cs` whose key is `k`, if that
/// child has one.
pub open spec fn child_in(cs: Seq<Child>, k: Seq<char>) -> Option<Tree>
    decreases cs.len(),
{
    if cs.len() == 0 {
        None
    } else if cs[0].key@ == k {
        cs[0].sub
    } else {
        child_in(cs.drop_first(), k)
    }
}

/// The subtree under key `k` of `t`, or `None` when there is no such child
/// or the child is a leaf.
pub open spec fn child_spec(t: Tree, k: Seq<char>) -> Option<Tree> {
    child_in(t.children@, k)
}

impl Tree {
    /// The keys of this node's children, in order.
    pub fn get_keys(&self) -> (r: Vec<String>)
        ensures
            r.deep_view() == keys_spec(*self),
    {
        let mut r: Vec<String> = Vec::new();
        let n = self.children.len();
        let mut i: usize = 0;
        while i < n
            invariant
                n == self.children.len(),
                i <= n,
                r@.len() == i,
                forall|j: int| 0 <= j < i ==> #[trigger] r@[j]@ == self.children@[j].key@,
            decreases n - i,
        {
            let cloned = self.children[i].key.clone();
            proof {
                assert(cloned@ == self.children@[i as int].key@);
            }
            r.push(cloned);
            i = i + 1;
        }
        proof {
            assert(r.deep_view() =~= keys_spec(*self));
        }
        r
    }

    /// The subtree under `key`, or `None` when no child carries `key` or
    /// the child carrying it is a leaf.
    pub fn get_child<'a>(&'a self, key: &String) -> (r: Option<&'a Tree>)
        ensures
            match r {
                Some(t) => child_spec(*self, key@) == Some(*t),
                None => child_spec(*self, key@) is None,
            },
    {
        let n = self.children.len();
        let mut i: usize = 0;
        proof {
            assert(self.children@.skip(0) =~= self.children@);
        }
        while i < n
            invariant
                n == self.children.len(),
                i <= n,
                child_in(self.children@.skip(i as int), key@) == child_spec(*self, key@),
            decreases n - i,
        {
            proof {
                assert(self.children@.skip(i as int).drop_first() =~= self.children@.skip(
                    i as int + 1,
                ));
            }
            if self.children[i].key == *key {
                return self.children[i].sub.as_ref();
            }
            i = i + 1;
        }
        proof {
            assert(self.children@.skip(n as int) =~= Seq::<Child>::empty());
        }
        None
    }
}

} // verus!
