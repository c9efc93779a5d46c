//! Scopes: the per-call environment of evaluation stack, variables and file
//! descriptors, linked to the scope it was called from. A child owns its
//! parent while it runs, so a parent cannot go away under a child.
use vstd::prelude::*;
use std::collections::HashMap;
use vstd::string::*;
use vstd::utf8::*;
use crate::values::{
    Entry, EntryView, SpecificValue, TeaNumber, TeaObject, Value, entry_fits, law_object_round_trip,
    object_payload, object_view,
};

verus! {

broadcast use vstd::std_specs::hash::group_hash_axioms;

/// One scope of a chain as plain values.
pub struct Frame {
    /// Payloads of the evaluation stack, bottom first.
    pub stack: Seq<Seq<u8>>,
    /// Payloads of the variables by id.
    pub vars: Map<u32, Seq<u8>>,
    /// Registered paths by file descriptor.
    pub fds: Map<u32, Seq<char>>,
}

pub open spec fn empty_frame() -> Frame {
    Frame { stack: Seq::empty(), vars: Map::empty(), fds: Map::empty() }
}

/// A frame with another stack.
pub open spec fn with_stack(f: Frame, stack: Seq<Seq<u8>>) -> Frame {
    Frame { stack, vars: f.vars, fds: f.fds }
}

/// A variable's payload as seen from the first scope of a chain: the first
/// scope, walking to the root, that binds it.
pub open spec fn lookup(c: Seq<Frame>, idx: u32) -> Option<Seq<u8>>
    decreases c.len(),
{
    if c.len() == 0 {
        None
    } else if c[0].vars.contains_key(idx) {
        Some(c[0].vars[idx])
    } else {
        lookup(c.drop_first(), idx)
    }
}

/// The chain after a root write: the binding is stored at the root and
/// taken out of every other scope.
pub open spec fn set_root(c: Seq<Frame>, idx: u32, v: Seq<u8>) -> Seq<Frame> {
    Seq::new(
        c.len(),
        |k: int|
            Frame {
                stack: c[k].stack,
                vars: if k == c.len() - 1 {
                    c[k].vars.insert(idx, v)
                } else {
                    c[k].vars.remove(idx)
                },
                fds: c[k].fds,
            },
    )
}

/// A chain as scopes make it: a root, and children that hold no variable.
pub open spec fn chain_wf(c: Seq<Frame>) -> bool {
    &&& c.len() >= 1
    &&& forall|k: int| 0 <= k < c.len() - 1 ==> (#[trigger] c[k]).vars.dom() == Set::<u32>::empty()
}

/// In a chain as scopes make it, a variable is found at the root or not at all.
pub proof fn lemma_lookup_root(c: Seq<Frame>, idx: u32)
    requires
        chain_wf(c),
    ensures
        lookup(c, idx) == if c.last().vars.contains_key(idx) {
            Some(c.last().vars[idx])
        } else {
            None
        },
    decreases c.len(),
{
    if c.len() > 1 {
        assert(c[0].vars.dom() == Set::<u32>::empty());
        assert(!c[0].vars.contains_key(idx));
        let t = c.drop_first();
        assert forall|k: int| 0 <= k < t.len() - 1 implies (#[trigger] t[k]).vars.dom() == Set::<u32>::empty() by {
            assert(t[k] == c[k + 1]);
        }
        lemma_lookup_root(t, idx);
        assert(t.last() == c.last());
        assert(lookup(c, idx) == lookup(t, idx));
    } else {
        assert(c.drop_first().len() == 0);
        assert(lookup(c.drop_first(), idx) is None);
        assert(c[0] == c.last());
    }
}

/// After a root write, the variable written reads as the value written,
/// from the first scope of the chain, and every other variable reads as
/// before.
pub proof fn lemma_lookup_set_root(c: Seq<Frame>, idx: u32, v: Seq<u8>, j: u32)
    requires
        c.len() >= 1,
    ensures
        lookup(set_root(c, idx, v), idx) == Some(v),
        j != idx ==> lookup(set_root(c, idx, v), j) == lookup(c, j),
    decreases c.len(),
{
    let d = set_root(c, idx, v);
    if c.len() > 1 {
        let t = c.drop_first();
        lemma_lookup_set_root(t, idx, v, j);
        assert(set_root(t, idx, v) =~= d.drop_first());
    } else {
        assert(d.drop_first().len() == 0);
        assert(c.drop_first().len() == 0);
        assert(lookup(d.drop_first(), j) is None);
        assert(lookup(c.drop_first(), j) is None);
    }
}

/// A root write keeps a chain as scopes make it.
pub proof fn law_set_root_keeps_chain(c: Seq<Frame>, idx: u32, v: Seq<u8>)
    requires
        chain_wf(c),
    ensures
        chain_wf(set_root(c, idx, v)),
{
    let d = set_root(c, idx, v);
    assert forall|k: int| 0 <= k < d.len() - 1 implies (#[trigger] d[k]).vars.dom() == Set::<u32>::empty() by {
        assert(c[k].vars.dom() == Set::<u32>::empty());
        assert(d[k].vars.dom() =~= Set::<u32>::empty());
    }
}

/// After a child of a parent chain writes a variable, the child reads the
/// value back, and so does every other child of the same parent.
pub proof fn law_root_write(child: Frame, sibling: Frame, parent: Seq<Frame>, idx: u32, v: Seq<u8>)
    requires
        parent.len() >= 1,
        chain_wf(seq![child] + parent),
        chain_wf(seq![sibling] + parent),
    ensures
        lookup(set_root(seq![child] + parent, idx, v), idx) == Some(v),
        lookup(seq![sibling] + set_root(seq![child] + parent, idx, v).drop_first(), idx) == Some(v),
{
    let c = seq![child] + parent;
    let d = set_root(c, idx, v);
    law_set_root_keeps_chain(c, idx, v);
    lemma_lookup_root(d, idx);
    let e = seq![sibling] + d.drop_first();
    assert forall|k: int| 0 <= k < e.len() - 1 implies (#[trigger] e[k]).vars.dom() == Set::<u32>::empty() by {
        if k == 0 {
            assert(e[0] == (seq![sibling] + parent)[0]);
        } else {
            assert(e[k] == d[k]);
        }
    }
    assert(e.last() == d.last());
    lemma_lookup_root(e, idx);
}

/// The bytes of the double 0.0.
pub open spec fn zero_bytes() -> Seq<u8> {
    seq![0u8, 0u8, 0u8, 0u8, 0u8, 0u8, 0u8, 0u8]
}

/// The bytes of the double 1.0.
pub open spec fn one_bytes() -> Seq<u8> {
    seq![0x3fu8, 0xf0u8, 0u8, 0u8, 0u8, 0u8, 0u8, 0u8]
}

/// The bytes of the double nearest to pi.
pub open spec fn pi_bytes() -> Seq<u8> {
    seq![0x40u8, 0x09u8, 0x21u8, 0xfbu8, 0x54u8, 0x44u8, 0x2du8, 0x18u8]
}

/// The bytes of the double nearest to tau, twice pi.
pub open spec fn tau_bytes() -> Seq<u8> {
    seq![0x40u8, 0x19u8, 0x21u8, 0xfbu8, 0x54u8, 0x44u8, 0x2du8, 0x18u8]
}

/// The entries of the built-in object `io`: the descriptors of the
/// standard streams.
pub open spec fn io_entries() -> Seq<EntryView> {
    seq![(encode_utf8("stdout"@), zero_bytes(), 2u8), (encode_utf8("stdin"@), one_bytes(), 2u8)]
}

/// The entries of the built-in object `math`.
pub open spec fn math_entries() -> Seq<EntryView> {
    seq![(encode_utf8("pi"@), pi_bytes(), 2u8), (encode_utf8("tau"@), tau_bytes(), 2u8)]
}

/// A built-in object of two entries with eight-byte values and the given
/// keys, which are at most six ASCII characters.
fn builtin_object(k0: &str, v0: [u8; 8], k1: &str, v1: [u8; 8]) -> (r: TeaObject)
    requires
        is_ascii_chars(k0@),
        is_ascii_chars(k1@),
        k0@.len() <= 6,
        k1@.len() <= 6,
    ensures
        r.encodable(),
        r@ == seq![(encode_utf8(k0@), v0@, 2u8), (encode_utf8(k1@), v1@, 2u8)],
{
    broadcast use vstd::utf8::is_ascii_chars_encode_utf8, vstd::utf8::encode_utf8_valid_utf8;

    let mut entries: Vec<Entry> = Vec::new();
    entries.push(Entry { key: String::from_str(k0), value: Value::from_specific(&TeaNumber(v0)), flags: 2 });
    entries.push(Entry { key: String::from_str(k1), value: Value::from_specific(&TeaNumber(v1)), flags: 2 });
    let r = TeaObject::new(entries);
    proof {
        let es = r@;
        assert(es =~= seq![(encode_utf8(k0@), v0@, 2u8), (encode_utf8(k1@), v1@, 2u8)]);
        assert(es.drop_first().drop_first() =~= Seq::<EntryView>::empty());
        let t = es.drop_first();
        assert(crate::values::entries_bytes(t.drop_first()).len() == 0);
        assert(crate::values::entries_bytes(t) == crate::values::entry_bytes(t[0]) + crate::values::entries_bytes(t.drop_first()));
        assert(crate::values::entries_bytes(es) == crate::values::entry_bytes(es[0]) + crate::values::entries_bytes(t));
        assert(encode_utf8(k0@).len() == k0@.len() && encode_utf8(k1@).len() == k1@.len());
        assert(object_payload(es).len() <= 2 + 2 * (2 + 6 + 2 + 8 + 1));
        assert(entry_fits(es[0]) && entry_fits(es[1]));
    }
    r
}

/// An execution environment.
pub struct Scope {
    stack: Vec<Value>,
    vars: HashMap<u32, Value>,
    parent: Option<Box<Scope>>,
    file_descriptors: HashMap<u32, String>,
}

impl Scope {
    /// This scope alone, as plain values.
    pub closed spec fn frame(&self) -> Frame {
        Frame {
            stack: self.stack@.map_values(|v: Value| v@),
            vars: self.vars@.map_values(|v: Value| v@),
            fds: self.file_descriptors@.map_values(|s: String| s@),
        }
    }

    /// This scope, then its parent, up to the root.
    pub closed spec fn chain(&self) -> Seq<Frame>
        decreases self,
    {
        match self.parent {
            Some(p) => seq![self.frame()] + p.chain(),
            None => seq![self.frame()],
        }
    }

    /// Every value held in the chain agrees with its declared length.
    pub closed spec fn wf(&self) -> bool
        decreases self,
    {
        &&& forall|k: int| 0 <= k < self.stack@.len() ==> (#[trigger] self.stack@[k]).wf()
        &&& forall|i: u32| #[trigger] self.vars@.contains_key(i) ==> self.vars@[i].wf()
        &&& match self.parent {
            Some(p) => p.wf(),
            None => true,
        }
    }

    /// A chain holds at least this scope, first.
    pub proof fn lemma_chain_len(&self)
        ensures
            self.chain().len() >= 1,
            self.chain()[0] == self.frame(),
        decreases self,
    {
        if let Some(p) = &self.parent {
            p.lemma_chain_len();
        }
    }

    /// A new scope with empty stack, variables and descriptors, linked to
    /// `parent`, which it owns until `into_parent` gives it back.
    pub fn new(parent: Option<Box<Scope>>) -> (r: Scope)
        ensures
            r.chain() == seq![empty_frame()] + match parent {
                Some(p) => p.chain(),
                None => Seq::empty(),
            },
            parent matches Some(p) && chain_wf(p.chain()) ==> chain_wf(r.chain()),
            parent is None ==> chain_wf(r.chain()),
            (parent matches Some(p) ==> p.wf()) ==> r.wf(),
    {
        let r = Scope { stack: Vec::new(), vars: HashMap::new(), parent, file_descriptors: HashMap::new() };
        proof {
            assert(r.frame().stack =~= Seq::empty());
            assert(r.frame().vars =~= Map::empty());
            assert(r.frame().fds =~= Map::empty());
            if let Some(p) = &r.parent {
                p.lemma_chain_len();
                let c = r.chain();
                if chain_wf(p.chain()) {
                    assert forall|k: int| 0 <= k < c.len() - 1 implies (#[trigger] c[k]).vars.dom() == Set::<u32>::empty() by {
                        if k > 0 {
                            assert(c[k] == p.chain()[k - 1]);
                        } else {
                            assert(c[0].vars.dom() =~= Set::<u32>::empty());
                        }
                    }
                }
            }
            if parent is None {
                assert(seq![empty_frame()] + Seq::<Frame>::empty() =~= seq![empty_frame()]);
            }
        }
        r
    }

    /// The program's entry scope, with no parent, seeded with the built-in
    /// objects `io` as variable 0 and `math` as variable 1.
    pub fn new_global() -> (r: Scope)
        ensures
            r.chain().len() == 1,
            r.wf(),
            chain_wf(r.chain()),
            r.chain()[0].stack.len() == 0,
            r.chain()[0].fds == Map::<u32, Seq<char>>::empty(),
            r.chain()[0].vars.dom() == set![0u32, 1u32],
            object_view(r.chain()[0].vars[0]) == Some(io_entries()),
            object_view(r.chain()[0].vars[1]) == Some(math_entries()),
    {
        proof {
            reveal_strlit("stdout");
            reveal_strlit("stdin");
            reveal_strlit("pi");
            reveal_strlit("tau");
        }
        let mut s = Scope::new(None);
        let io = builtin_object("stdout", [0, 0, 0, 0, 0, 0, 0, 0], "stdin", [0x3f, 0xf0, 0, 0, 0, 0, 0, 0]);
        let math = builtin_object(
            "pi",
            [0x40, 0x09, 0x21, 0xfb, 0x54, 0x44, 0x2d, 0x18],
            "tau",
            [0x40, 0x19, 0x21, 0xfb, 0x54, 0x44, 0x2d, 0x18],
        );
        proof {
            assert(io@ =~= io_entries());
            assert(math@ =~= math_entries());
            law_object_round_trip(io_entries());
            law_object_round_trip(math_entries());
        }
        s.set_var(&0, &io.to_value());
        s.set_var(&1, &math.to_value());
        proof {
            assert(s.chain()[0].vars.dom() =~= set![0u32, 1u32]);
        }
        s
    }

    /// Makes this scope a fresh child of what it was.
    pub fn enter_child(&mut self)
        requires
            old(self).wf(),
        ensures
            final(self).wf(),
            final(self).chain() == seq![empty_frame()] + old(self).chain(),
    {
        let mut outer = Scope::new(None);
        core::mem::swap(self, &mut outer);
        *self = Scope::new(Some(Box::new(outer)));
    }

    /// Ends this scope, if it has a parent, and makes this the parent.
    pub fn leave_child(&mut self) -> (r: bool)
        requires
            old(self).wf(),
        ensures
            final(self).wf(),
            r == (old(self).chain().len() > 1),
            r ==> final(self).chain() == old(self).chain().drop_first(),
            !r ==> final(self).chain() == old(self).chain(),
    {
        proof {
            self.lemma_chain_len();
            if let Some(p) = &self.parent {
                p.lemma_chain_len();
                assert(self.chain().drop_first() =~= p.chain());
            }
        }
        match self.parent.take() {
            Some(p) => {
                *self = *p;
                true
            },
            None => false,
        }
    }

    /// Ends this scope and gives back the scope it was linked to.
    pub fn into_parent(self) -> (r: Option<Scope>)
        ensures
            self.wf() ==> (r matches Some(p) ==> p.wf()),
            r is None <==> self.chain().len() == 1,
            r matches Some(p) ==> p.chain() == self.chain().drop_first(),
    {
        proof {
            if let Some(p) = &self.parent {
                p.lemma_chain_len();
                assert(self.chain().drop_first() =~= p.chain());
            }
        }
        match self.parent {
            Some(p) => Some(*p),
            None => None,
        }
    }

    pub fn pop(&mut self) -> (r: Option<Value>)
        requires
            old(self).wf(),
        ensures
            final(self).wf(),
            r matches Some(v) ==> v.wf(),
            old(self).chain()[0].stack.len() == 0 ==> r is None && final(self).chain() == old(self).chain(),
            old(self).chain()[0].stack.len() > 0 ==> (r matches Some(v) && v@ == old(
                self,
            ).chain()[0].stack.last()),
            old(self).chain()[0].stack.len() > 0 ==> final(self).chain() == old(self).chain().update(
                0,
                with_stack(old(self).chain()[0], old(self).chain()[0].stack.drop_last()),
            ),
    {
        proof {
            self.lemma_chain_len();
        }
        let r = self.stack.pop();
        proof {
            self.lemma_chain_len();
            if old(self).stack@.len() > 0 {
                assert(self.frame().stack =~= old(self).frame().stack.drop_last());
            } else {
                assert(self.frame().stack =~= old(self).frame().stack);
            }
            assert(self.chain() =~= old(self).chain().update(0, self.frame()));
        }
        r
    }

    pub fn push(&mut self, value: &Value)
        requires
            old(self).wf(),
            value.wf(),
        ensures
            final(self).wf(),
            final(self).chain().len() == old(self).chain().len(),
            final(self).chain()[0].stack == old(self).chain()[0].stack.push(value@),
            final(self).chain() == old(self).chain().update(
                0,
                with_stack(old(self).chain()[0], old(self).chain()[0].stack.push(value@)),
            ),
    {
        proof {
            self.lemma_chain_len();
        }
        self.stack.push(value.copy());
        proof {
            self.lemma_chain_len();
            assert(self.frame().stack =~= old(self).frame().stack.push(value@));
            assert(self.chain() =~= old(self).chain().update(0, self.frame()));
        }
    }

    /// Looks a variable up here, then in the parent, up to the root.
    pub fn get_var(&self, idx: &u32) -> (r: Option<Value>)
        requires
            self.wf(),
        ensures
            r matches Some(v) ==> v.wf(),
            r is Some <==> lookup(self.chain(), *idx) is Some,
            r matches Some(v) ==> lookup(self.chain(), *idx) == Some(v@),
        decreases self,
    {
        proof {
            self.lemma_chain_len();
            assert(self.chain().drop_first() == match self.parent {
                Some(p) => p.chain(),
                None => Seq::<Frame>::empty(),
            });
        }
        let c = Ghost(self.chain());
        assert(c@[0].vars.contains_key(*idx) == self.vars@.contains_key(*idx));
        match self.vars.get(idx) {
            Some(v) => {
                assert(c@[0].vars[*idx] == v@);
                Some(v.copy())
            },
            None => match &self.parent {
                Some(p) => p.get_var(idx),
                None => {
                    assert(lookup(c@.drop_first(), *idx) is None);
                    None
                },
            },
        }
    }

    /// Writes a variable at the root of the chain and takes it out of every
    /// scope on the way, so that every scope of the chain then sees it.
    pub fn set_var(&mut self, idx: &u32, value: &Value)
        requires
            old(self).wf(),
            value.wf(),
        ensures
            final(self).wf(),
            final(self).chain() == set_root(old(self).chain(), *idx, value@),
            lookup(final(self).chain(), *idx) == Some(value@),
            forall|j: u32| j != *idx ==> lookup(final(self).chain(), j) == lookup(old(self).chain(), j),
            chain_wf(old(self).chain()) ==> chain_wf(final(self).chain()),
        decreases old(self).chain().len(),
    {
        proof {
            self.lemma_chain_len();
            if chain_wf(self.chain()) {
                law_set_root_keeps_chain(self.chain(), *idx, value@);
            }
            assert forall|j: u32| j != *idx implies lookup(set_root(self.chain(), *idx, value@), j) == lookup(
                self.chain(),
                j,
            ) by {
                lemma_lookup_set_root(self.chain(), *idx, value@, j);
            }
            lemma_lookup_set_root(self.chain(), *idx, value@, *idx);
        }
        let ghost c = old(self).chain();
        match &mut self.parent {
            Some(p) => {
                proof {
                    p.lemma_chain_len();
                    assert(c.drop_first() == p.chain());
                }
                p.set_var(idx, value);
                self.vars.remove(idx);
                proof {
                    let d = self.parent.unwrap().chain();
                    assert(d == set_root(c.drop_first(), *idx, value@));
                    assert(self.frame().vars =~= old(self).frame().vars.remove(*idx));
                    assert(self.chain() == seq![self.frame()] + d);
                    assert(self.chain() =~= set_root(c, *idx, value@));
                }
            },
            None => {
                self.vars.insert(*idx, value.copy());
                proof {
                    assert(self.frame().vars =~= old(self).frame().vars.insert(*idx, value@));
                    assert(self.chain() =~= set_root(c, *idx, value@));
                }
            },
        }
    }

    /// Registers `path` under file descriptor `fd` in this scope only.
    pub fn add_fd(&mut self, fd: &u32, path: &String)
        requires
            old(self).wf(),
        ensures
            final(self).wf(),
            final(self).chain() == old(self).chain().update(
                0,
                (Frame {
                    stack: old(self).chain()[0].stack,
                    vars: old(self).chain()[0].vars,
                    fds: old(self).chain()[0].fds.insert(*fd, path@),
                }),
            ),
    {
        proof {
            self.lemma_chain_len();
        }
        self.file_descriptors.insert(*fd, path.clone());
        proof {
            self.lemma_chain_len();
            assert(self.frame().fds =~= old(self).frame().fds.insert(*fd, path@));
            assert(self.chain() =~= old(self).chain().update(0, self.frame()));
        }
    }

    /// The path registered under `fd` in this scope, if any.
    pub fn fd_path(&self, fd: &u32) -> (r: Option<String>)
        ensures
            r is Some <==> self.chain()[0].fds.contains_key(*fd),
            r matches Some(s) ==> self.chain()[0].fds[*fd] == s@,
    {
        proof {
            self.lemma_chain_len();
        }
        match self.file_descriptors.get(fd) {
            Some(s) => Some(s.clone()),
            None => None,
        }
    }
}

} // verus!
