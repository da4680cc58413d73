//! Environments: what names are bound to, frame by frame.
//!
//! An environment is a stack of frames. The outermost frame holds the global
//! bindings; a call pushes a frame for its parameters and pops it when it
//! returns. A name is looked up in the innermost frame that binds it.

use vstd::prelude::*;

verus! {

/// The bindings that a list of pairs makes, a later pair for a name taking
/// the place of an earlier one.
pub open spec fn bindings<V>(pairs: Seq<(String, V)>) -> Map<Seq<char>, V>
    decreases pairs.len(),
{
    if pairs.len() == 0 {
        Map::empty()
    } else {
        bindings(pairs.drop_last()).insert(pairs.last().0@, pairs.last().1)
    }
}

/// `i` is the last position in `pairs` whose name is `key`.
pub open spec fn last_position<V>(pairs: Seq<(String, V)>, key: Seq<char>, i: int) -> bool {
    &&& 0 <= i < pairs.len()
    &&& pairs[i].0@ == key
    &&& forall|j: int| i < j < pairs.len() ==> (#[trigger] pairs[j]).0@ != key
}

/// What `key` is bound to in a stack of frames, the innermost (last) first.
pub open spec fn lookup_in<V>(frames: Seq<Map<Seq<char>, V>>, key: Seq<char>) -> Option<V>
    decreases frames.len(),
{
    if frames.len() == 0 {
        None
    } else if frames.last().dom().contains(key) {
        Some(frames.last()[key])
    } else {
        lookup_in(frames.drop_last(), key)
    }
}

proof fn lemma_bindings_last<V>(pairs: Seq<(String, V)>, key: Seq<char>, i: int)
    requires
        last_position(pairs, key, i),
    ensures
        bindings(pairs).dom().contains(key),
        bindings(pairs)[key] == pairs[i].1,
    decreases pairs.len(),
{
    if i < pairs.len() - 1 {
        assert(pairs[pairs.len() - 1].0@ != key);
        let init = pairs.drop_last();
        assert forall|j: int| i < j < init.len() implies (#[trigger] init[j]).0@ != key by {
            assert(init[j] == pairs[j]);
        }
        lemma_bindings_last(init, key, i);
    }
}

proof fn lemma_bindings_absent<V>(pairs: Seq<(String, V)>, key: Seq<char>)
    requires
        forall|j: int| 0 <= j < pairs.len() ==> (#[trigger] pairs[j]).0@ != key,
    ensures
        !bindings(pairs).dom().contains(key),
    decreases pairs.len(),
{
    if pairs.len() > 0 {
        let init = pairs.drop_last();
        assert(pairs[pairs.len() - 1].0@ != key);
        assert forall|j: int| 0 <= j < init.len() implies (#[trigger] init[j]).0@ != key by {
            assert(init[j] == pairs[j]);
        }
        lemma_bindings_absent(init, key);
    }
}

proof fn lemma_bindings_update<V>(pairs: Seq<(String, V)>, i: int, key: String, value: V)
    requires
        last_position(pairs, key@, i),
    ensures
        bindings(pairs.update(i, (key, value))) == bindings(pairs).insert(key@, value),
    decreases pairs.len(),
{
    let updated = pairs.update(i, (key, value));
    let init = pairs.drop_last();
    if i == pairs.len() - 1 {
        assert(updated.drop_last() =~= init);
        assert(bindings(updated) =~= bindings(pairs).insert(key@, value));
    } else {
        assert(pairs[pairs.len() - 1].0@ != key@);
        assert forall|j: int| i < j < init.len() implies (#[trigger] init[j]).0@ != key@ by {
            assert(init[j] == pairs[j]);
        }
        assert(updated.drop_last() =~= init.update(i, (key, value)));
        lemma_bindings_update(init, i, key, value);
        assert(bindings(updated) =~= bindings(pairs).insert(key@, value));
    }
}

/// The last position of `key` among `pairs`.
fn find<V>(pairs: &Vec<(String, V)>, key: &String) -> (r: Option<usize>)
    ensures
        match r {
            Some(i) => last_position(pairs@, key@, i as int),
            None => forall|j: int| 0 <= j < pairs@.len() ==> (#[trigger] pairs@[j]).0@ != key@,
        },
{
    let mut i: usize = pairs.len();
    while i > 0
        invariant
            i <= pairs@.len(),
            forall|j: int| i <= j < pairs@.len() ==> (#[trigger] pairs@[j]).0@ != key@,
        decreases i,
    {
        i = i - 1;
        if pairs[i].0 == *key {
            return Some(i);
        }
    }
    None
}

/// A stack of frames of bindings; there is always at least the outermost one.
pub struct Env<V> {
    data: Vec<Vec<(String, V)>>,
}

impl<V> Env<V> {
    /// The frames, outermost first.
    pub closed spec fn frames(&self) -> Seq<Map<Seq<char>, V>> {
        self.data@.map_values(|f: Vec<(String, V)>| bindings(f@))
    }

    /// What `key` is bound to: in the innermost frame that binds it.
    pub open spec fn lookup(&self, key: Seq<char>) -> Option<V> {
        lookup_in(self.frames(), key)
    }

    /// The environment has its outermost frame.
    pub closed spec fn wf(&self) -> bool {
        self.data@.len() >= 1
    }

    /// An environment whose frames are `frames` has its outermost one.
    pub proof fn lemma_wf(&self)
        ensures
            self.wf() <==> self.frames().len() >= 1,
    {
    }

    /// An environment with one empty frame.
    pub fn new() -> (e: Self)
        ensures
            e.wf(),
            e.frames() == seq![Map::<Seq<char>, V>::empty()],
            forall|key: Seq<char>| (#[trigger] e.lookup(key)) is None,
    {
        let mut data: Vec<Vec<(String, V)>> = Vec::new();
        data.push(Vec::new());
        let e = Env { data };
        proof {
            assert(e.frames() =~= seq![Map::<Seq<char>, V>::empty()]);
            assert forall|key: Seq<char>| (#[trigger] e.lookup(key)) is None by {
                assert(e.frames().drop_last() =~= Seq::<Map<Seq<char>, V>>::empty());
                assert(!e.frames().last().dom().contains(key));
                assert(lookup_in(e.frames().drop_last(), key) is None);
            }
        }
        e
    }

    /// How many frames there are.
    pub fn depth(&self) -> (n: usize)
        ensures
            n == self.frames().len(),
    {
        self.data.len()
    }

    /// Binds `key` to `value` in the innermost frame, in place of what it was
    /// bound to there before.
    pub fn insert(&mut self, key: String, value: V)
        requires
            old(self).wf(),
        ensures
            final(self).wf(),
            final(self).frames() == old(self).frames().update(
                old(self).frames().len() - 1,
                old(self).frames().last().insert(key@, value),
            ),
            forall|k: Seq<char>| #[trigger] final(self).lookup(k) == if k == key@ {
                Some(value)
            } else {
                old(self).lookup(k)
            },
    {
        let ghost old_frames = self.frames();
        let top = self.data.len() - 1;
        let mut frame = match self.data.pop() {
            Some(f) => f,
            None => Vec::new(),
        };
        let ghost old_top = frame@;
        match find(&frame, &key) {
            Some(i) => {
                proof {
                    lemma_bindings_update(frame@, i as int, key, value);
                }
                frame.set(i, (key, value));
            },
            None => {
                proof {
                    let pushed = frame@.push((key, value));
                    assert(pushed.drop_last() =~= frame@);
                }
                frame.push((key, value));
            },
        }
        self.data.push(frame);
        proof {
            assert(old_top == old(self).data@[top as int]@);
            assert(self.frames() =~= old_frames.update(top as int, old_frames.last().insert(key@, value)));
            let nf = self.frames();
            assert(nf.drop_last() =~= old_frames.drop_last());
            assert forall|k: Seq<char>| #[trigger] self.lookup(k) == if k == key@ {
                Some(value)
            } else {
                old(self).lookup(k)
            } by {
                if k != key@ {
                    assert(nf.last().dom().contains(k) == old_frames.last().dom().contains(k));
                }
            }
        }
    }

    /// Adds an empty innermost frame.
    pub fn push_frame(&mut self)
        requires
            old(self).wf(),
        ensures
            final(self).wf(),
            final(self).frames() == old(self).frames().push(Map::empty()),
            forall|k: Seq<char>| #[trigger] final(self).lookup(k) == old(self).lookup(k),
    {
        self.data.push(Vec::new());
        proof {
            assert(self.frames() =~= old(self).frames().push(Map::empty()));
            assert(self.frames().drop_last() =~= old(self).frames());
        }
    }

    /// Drops the innermost frame; the outermost one stays.
    pub fn pop_frame(&mut self)
        requires
            old(self).wf(),
            old(self).frames().len() >= 2,
        ensures
            final(self).wf(),
            final(self).frames() == old(self).frames().drop_last(),
    {
        let _ = self.data.pop();
        proof {
            assert(self.frames() =~= old(self).frames().drop_last());
        }
    }

    /// What `key` is bound to, in the innermost frame that binds it.
    pub fn get(&self, key: &str) -> (r: Option<&V>)
        ensures
            match r {
                Some(v) => self.lookup(key@) == Some(*v),
                None => self.lookup(key@) is None,
            },
    {
        let k = key.to_owned();
        let mut d: usize = self.data.len();
        proof {
            assert(self.frames().take(d as int) =~= self.frames());
        }
        while d > 0
            invariant
                d <= self.data@.len(),
                k@ == key@,
                lookup_in(self.frames(), key@) == lookup_in(self.frames().take(d as int), key@),
            decreases d,
        {
            let ghost fs = self.frames().take(d as int);
            proof {
                assert(fs.last() == bindings(self.data@[d - 1]@));
                assert(fs.drop_last() =~= self.frames().take(d - 1));
            }
            match find(&self.data[d - 1], &k) {
                Some(i) => {
                    proof {
                        lemma_bindings_last(self.data@[d - 1]@, key@, i as int);
                    }
                    return Some(&self.data[d - 1][i].1);
                },
                None => {
                    proof {
                        lemma_bindings_absent(self.data@[d - 1]@, key@);
                    }
                },
            }
            d = d - 1;
        }
        proof {
            assert(self.frames().take(0) =~= Seq::<Map<Seq<char>, V>>::empty());
        }
        None
    }
}

// ---------------------------------------------------------------------------
// Laws.
// ---------------------------------------------------------------------------

/// A name bound in the innermost frame is looked up there, whatever the
/// frames around it bind; any other name is looked up in the frames around it.
pub proof fn lemma_innermost_first<V>(frames: Seq<Map<Seq<char>, V>>, key: Seq<char>)
    requires
        frames.len() >= 1,
    ensures
        frames.last().dom().contains(key) ==> lookup_in(frames, key) == Some(frames.last()[key]),
        !frames.last().dom().contains(key) ==> lookup_in(frames, key) == lookup_in(frames.drop_last(), key),
{
}

/// Pushing a frame, binding names in it and popping it again leaves every
/// name bound as before.
pub proof fn lemma_pop_forgets_the_frame<V>(frames: Seq<Map<Seq<char>, V>>, inner: Map<Seq<char>, V>, key: Seq<char>)
    ensures
        lookup_in(frames.push(inner).drop_last(), key) == lookup_in(frames, key),
{
    assert(frames.push(inner).drop_last() =~= frames);
}

} // verus!
