//! The callee-side argument sequence: the values handed to the spawned
//! routine, rebuilt from the argument-array text and drained destructively
//! from either end.

use vstd::prelude::*;
use crate::codec::spec_decode;
use crate::value::items_model;
use crate::value::items_wf;
use crate::value::Val;
use crate::value::Value;

verus! {

/// An ordered, consumable sequence of [`Value`]: each element yielded is
/// removed, so nothing can be replayed.
pub struct Args {
    args: Vec<Value>,
}

impl View for Args {
    type V = Seq<Value>;

    closed spec fn view(&self) -> Seq<Value> {
        self.args@
    }
}

impl Args {
    /// Rebuilds the argument sequence from the argument-array text the
    /// invoker placed in the environment; fails on anything that does not
    /// decode to a list.
    pub fn from_json(text: &str) -> (r: Option<Args>)
        ensures
            (r is Some) == (spec_decode(text@) matches Some(Val::Lst(_))),
            r matches Some(a) ==> spec_decode(text@) == Some(Val::Lst(items_model(a@)))
                && items_wf(a@),
    {
        match Value::from_json_value(text) {
            None => None,
            Some(v) => match v {
                Value::List(xs) => Some(Args { args: xs }),
                _ => None,
            },
        }
    }

    /// The values still held, front to back.
    pub fn remaining(&self) -> (r: usize)
        ensures
            r == self@.len(),
    {
        self.args.len()
    }

    /// Removes and returns the front argument.
    pub fn next(&mut self) -> (r: Option<Value>)
        ensures
            old(self)@.len() == 0 ==> r is None && final(self)@ == old(self)@,
            old(self)@.len() > 0 ==> r == Some(old(self)@[0]) && final(self)@
                == old(self)@.drop_first(),
    {
        if self.args.len() == 0 {
            None
        } else {
            let v = self.args.remove(0);
            proof {
                assert(self.args@ =~= old(self)@.drop_first());
            }
            Some(v)
        }
    }

    /// Removes and returns the back argument.
    pub fn next_back(&mut self) -> (r: Option<Value>)
        ensures
            old(self)@.len() == 0 ==> r is None && final(self)@ == old(self)@,
            old(self)@.len() > 0 ==> r == Some(old(self)@.last()) && final(self)@
                == old(self)@.drop_last(),
    {
        self.args.pop()
    }

    /// Skips `n` arguments from the back, then removes and returns the
    /// next; everything skipped is consumed too.
    pub fn nth_back(&mut self, n: usize) -> (r: Option<Value>)
        ensures
            old(self)@.len() > n ==> r == Some(old(self)@[old(self)@.len() - 1 - n])
                && final(self)@ == old(self)@.take(old(self)@.len() - n - 1),
            old(self)@.len() <= n ==> r is None && final(self)@.len() == 0,
    {
        if self.args.len() <= n {
            self.args.clear();
            None
        } else {
            let keep = self.args.len() - n;
            self.args.truncate(keep);
            let r = self.args.pop();
            proof {
                assert(self.args@ =~= old(self)@.take(old(self)@.len() - n - 1));
            }
            r
        }
    }
}

} // verus!
