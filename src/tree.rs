use vstd::prelude::*;

verus! {

/// A binary tree node: a value with an optional left and an optional right subtree.
pub struct Tree<T> {
    pub value: T,
    pub left: Option<Box<Tree<T>>>,
    pub right: Option<Box<Tree<T>>>,
}

impl<T> Tree<T> {
    /// Left subtree, the value, then the right subtree.
    pub open spec fn spec_inorder(self) -> Seq<T>
        decreases self,
    {
        let l = match self.left {
            Some(t) => t.spec_inorder(),
            None => seq![],
        };
        let r = match self.right {
            Some(t) => t.spec_inorder(),
            None => seq![],
        };
        l + seq![self.value] + r
    }

    /// The value, then the left subtree, then the right subtree.
    pub open spec fn spec_preorder(self) -> Seq<T>
        decreases self,
    {
        let l = match self.left {
            Some(t) => t.spec_preorder(),
            None => seq![],
        };
        let r = match self.right {
            Some(t) => t.spec_preorder(),
            None => seq![],
        };
        seq![self.value] + l + r
    }

    /// The left subtree, then the right subtree, then the value.
    pub open spec fn spec_postorder(self) -> Seq<T>
        decreases self,
    {
        let l = match self.left {
            Some(t) => t.spec_postorder(),
            None => seq![],
        };
        let r = match self.right {
            Some(t) => t.spec_postorder(),
            None => seq![],
        };
        l + r + seq![self.value]
    }
}

/// Each traversal is a function of the tree alone: reading the same tree twice,
/// or two equal trees, gives the same inorder, preorder and postorder sequences.
pub proof fn lemma_traversals_repeat<T>(t: Tree<T>, u: Tree<T>)
    requires
        t == u,
    ensures
        t.spec_inorder() == u.spec_inorder(),
        t.spec_preorder() == u.spec_preorder(),
        t.spec_postorder() == u.spec_postorder(),
{
}

impl<T: Copy> Clone for Tree<T> {
    fn clone(&self) -> (r: Self)
        ensures
            r == *self,
        decreases self,
    {
        Tree {
            value: self.value,
            left: (match &self.left {
                Some(t) => Some(Box::new((&**t).clone())),
                None => None,
            }),
            right: (match &self.right {
                Some(t) => Some(Box::new((&**t).clone())),
                None => None,
            }),
        }
    }
}

impl<T: Copy> Tree<T> {
    pub fn inorder(&self) -> (r: Vec<T>)
        ensures
            r@ == self.spec_inorder(),
    {
        let mut inorder = Vec::new();
        self.internal_inorder(&mut inorder);
        proof {
            assert(inorder@ =~= self.spec_inorder());
        }
        inorder
    }

    pub fn preorder(&self) -> (r: Vec<T>)
        ensures
            r@ == self.spec_preorder(),
    {
        let mut preorder = Vec::new();
        self.internal_preorder(&mut preorder);
        proof {
            assert(preorder@ =~= self.spec_preorder());
        }
        preorder
    }

    pub fn postorder(&self) -> (r: Vec<T>)
        ensures
            r@ == self.spec_postorder(),
    {
        let mut postorder = Vec::new();
        self.internal_postorder(&mut postorder);
        proof {
            assert(postorder@ =~= self.spec_postorder());
        }
        postorder
    }

    fn internal_inorder(&self, out: &mut Vec<T>)
        ensures
            final(out)@ == old(out)@ + self.spec_inorder(),
        decreases self,
    {
        if let Some(ref left) = self.left {
            left.internal_inorder(out);
        }
        out.push(self.value);
        if let Some(ref right) = self.right {
            right.internal_inorder(out);
        }
        proof {
            assert(out@ =~= old(out)@ + self.spec_inorder());
        }
    }

    fn internal_preorder(&self, out: &mut Vec<T>)
        ensures
            final(out)@ == old(out)@ + self.spec_preorder(),
        decreases self,
    {
        out.push(self.value);
        if let Some(ref left) = self.left {
            left.internal_preorder(out);
        }
        if let Some(ref right) = self.right {
            right.internal_preorder(out);
        }
        proof {
            assert(out@ =~= old(out)@ + self.spec_preorder());
        }
    }

    fn internal_postorder(&self, out: &mut Vec<T>)
        ensures
            final(out)@ == old(out)@ + self.spec_postorder(),
        decreases self,
    {
        if let Some(ref left) = self.left {
            left.internal_postorder(out);
        }
        if let Some(ref right) = self.right {
            right.internal_postorder(out);
        }
        out.push(self.value);
        proof {
            assert(out@ =~= old(out)@ + self.spec_postorder());
        }
    }
}

} // verus!
