//! Interned names.
//!
//! A name is a small integer into a pool of strings. The pool is a `lasso::ThreadedRodeo`, which
//! numbers new strings in the order in which they arrive; the integer is that number plus one, and
//! zero is the empty string.

use crate::ids::{at_offset, offset_of, ListedKey, MapKey};
use lasso::{Key, Spur, ThreadedRodeo};
use vstd::prelude::*;

verus! {

/// A handle for an interned string. Zero stands for the empty string.
#[derive(Clone, Copy, PartialEq, Eq, Hash, Debug, Structural)]
pub struct IdString(pub i32);

impl Default for IdString {
    /// The handle of the empty string.
    fn default() -> (r: Self)
        ensures
            r == IdString(0),
    {
        IdString(0)
    }
}

impl IdString {
    /// The handle of the empty string.
    pub fn empty() -> (r: Self)
        ensures
            r == IdString(0),
    {
        IdString(0)
    }

    /// Whether this is the handle of the empty string.
    pub fn is_empty(self) -> (r: bool)
        ensures
            r == (self == IdString(0)),
    {
        self.0 == 0
    }

    /// The number of the handle.
    pub fn index(self) -> (r: i32)
        ensures
            r == self.0,
    {
        self.0
    }
}

impl MapKey for IdString {
    open spec fn key_of(self) -> u64 {
        (self.0 + 0x8000_0000) as u64
    }

    proof fn key_injective(a: Self, b: Self) {
    }

    fn to_key(self) -> (k: u64) {
        offset_of(self.0) as u64
    }
}

impl ListedKey for IdString {
    fn from_key(k: u64) -> (r: Self) {
        if k <= u32::MAX as u64 {
            IdString(at_offset(k as u32))
        } else {
            IdString(0)
        }
    }
}

/// The string pool of the `lasso` crate.
#[verifier::external_type_specification]
#[verifier::external_body]
#[verifier::reject_recursive_types(K)]
#[verifier::reject_recursive_types(S)]
pub struct ExThreadedRodeo<K, S>(ThreadedRodeo<K, S>);

/// The key type of the string pool.
#[verifier::external_type_specification]
#[verifier::external_body]
pub struct ExSpur(Spur);

/// The strings of a pool, in the order of their keys.
pub uninterp spec fn interned(pool: ThreadedRodeo) -> Seq<Seq<char>>;

/// `lasso::ThreadedRodeo::new`: a pool without strings.
#[verifier::external_body]
fn rodeo_new() -> (pool: ThreadedRodeo)
    ensures
        interned(pool) == Seq::<Seq<char>>::empty(),
{
    ThreadedRodeo::new()
}

/// `lasso::ThreadedRodeo::get_or_intern` and `lasso::Spur::into_usize`: the number of a string
/// that the pool holds, or else the next free number, under which the string is added. The call
/// fails when the key space of `u32` is used up, which the bound on the number of strings keeps out.
#[verifier::external_body]
fn rodeo_intern(pool: &mut ThreadedRodeo, s: &str) -> (key: usize)
    requires
        interned(*old(pool)).len() < 0x7fff_ffff,
    ensures
        interned(*old(pool)).contains(s@) ==> interned(*final(pool)) == interned(*old(pool)),
        !interned(*old(pool)).contains(s@) ==> interned(*final(pool)) == interned(*old(pool)).push(s@),
        key < interned(*final(pool)).len(),
        interned(*final(pool))[key as int] == s@,
{
    pool.get_or_intern(s).into_usize()
}

/// `lasso::Spur::try_from_usize` and `lasso::ThreadedRodeo::try_resolve`: the string with the
/// given number, and `None` for a number that no string has.
#[verifier::external_body]
fn rodeo_resolve(pool: &ThreadedRodeo, key: usize) -> (r: Option<&str>)
    ensures
        match r {
            Some(s) => key < interned(*pool).len() && s@ == interned(*pool)[key as int],
            None => key >= interned(*pool).len(),
        },
{
    pool.try_resolve(&Spur::try_from_usize(key)?)
}

/// `lasso::ThreadedRodeo::len`: the number of strings in the pool.
#[verifier::external_body]
fn rodeo_len(pool: &ThreadedRodeo) -> (n: usize)
    ensures
        n == interned(*pool).len(),
{
    pool.len()
}

/// A pool of interned strings.
pub struct IdStringPool {
    strings: ThreadedRodeo,
}

impl View for IdStringPool {
    type V = Seq<Seq<char>>;

    /// The strings by handle: the empty string first, then the interned ones in order.
    closed spec fn view(&self) -> Seq<Seq<char>> {
        seq![Seq::<char>::empty()] + interned(self.strings)
    }
}

impl IdStringPool {
    /// No string stands in the pool twice, and none but the first is empty.
    pub closed spec fn wf(self) -> bool {
        &&& interned(self.strings).no_duplicates()
        &&& !interned(self.strings).contains(Seq::<char>::empty())
    }

    /// A pool that holds the empty string alone.
    pub fn new() -> (pool: Self)
        ensures
            pool.wf(),
            pool@ == seq![Seq::<char>::empty()],
    {
        let pool = IdStringPool { strings: rodeo_new() };
        assert(pool@ =~= seq![Seq::<char>::empty()]);
        pool
    }

    /// The handle of `s`, which is added to the pool if it is not there.
    pub fn intern(&mut self, s: &str) -> (id: IdString)
        requires
            old(self).wf(),
            old(self)@.len() <= 0x7fff_ffff,
        ensures
            final(self).wf(),
            0 <= id.0 < final(self)@.len(),
            final(self)@[id.0 as int] == s@,
            old(self)@.contains(s@) ==> final(self)@ == old(self)@,
            !old(self)@.contains(s@) ==> final(self)@ == old(self)@.push(s@),
    {
        proof {
            assert(self@[0] == Seq::<char>::empty());
        }
        if str_is_empty(s) {
            assert(s@ =~= Seq::<char>::empty());
            return IdString(0);
        }
        let key: usize = rodeo_intern(&mut self.strings, s);
        proof {
            let before = interned(old(self).strings);
            let after = interned(self.strings);
            assert(before.len() + 1 == old(self)@.len());
            if before.contains(s@) {
                let i = choose|i: int| 0 <= i < before.len() && before[i] == s@;
                assert(old(self)@[i + 1] == s@);
            } else {
                assert(!old(self)@.contains(s@)) by {
                    if old(self)@.contains(s@) {
                        let i = choose|i: int| 0 <= i < old(self)@.len() && old(self)@[i] == s@;
                        assert(i > 0);
                        assert(before[i - 1] == s@);
                    }
                }
                assert(self@ =~= old(self)@.push(s@));
                assert forall|i: int| 0 <= i < after.len() implies after[i] != Seq::<char>::empty() by {
                    if i < before.len() {
                        assert(before.contains(before[i]));
                    }
                }
            }
        }
        IdString((key as i32) + 1)
    }

    /// The string of a handle; `None` for a handle that the pool did not give out.
    pub fn lookup(&self, id: IdString) -> (r: Option<&str>)
        ensures
            match r {
                Some(s) => 0 <= id.0 < self@.len() && s@ == self@[id.0 as int],
                None => !(0 <= id.0 < self@.len()),
            },
    {
        if id.is_empty() {
            proof {
                reveal_strlit("");
                assert(""@ =~= Seq::<char>::empty());
            }
            return Some("");
        }
        if id.0 <= 0 {
            return None;
        }
        let key: usize = (id.0 - 1) as usize;
        rodeo_resolve(&self.strings, key)
    }

    /// The number of strings, the empty one included.
    pub fn len(&self) -> (n: usize)
        requires
            self@.len() <= usize::MAX,
        ensures
            n == self@.len(),
    {
        rodeo_len(&self.strings) + 1
    }

    /// Whether the pool holds nothing but the empty string.
    pub fn is_empty(&self) -> (r: bool)
        requires
            self@.len() <= usize::MAX,
        ensures
            r == (self@.len() <= 1),
    {
        self.len() <= 1
    }

    /// A pool begins with the empty string, and lists no string twice.
    pub proof fn strings_stand_once(self)
        requires
            self.wf(),
        ensures
            self@.len() > 0,
            self@[0] == Seq::<char>::empty(),
            self@.no_duplicates(),
    {
        let s = interned(self.strings);
        assert forall|i: int, j: int| 0 <= i < self@.len() && 0 <= j < self@.len() && i != j implies self@[i]
            != self@[j] by {
            if i > 0 {
                assert(s.contains(s[i - 1]));
            }
            if j > 0 {
                assert(s.contains(s[j - 1]));
            }
        }
    }

    /// Different handles of a pool stand for different strings.
    pub proof fn handles_are_distinct(self, a: IdString, b: IdString)
        requires
            self.wf(),
            0 <= a.0 < self@.len(),
            0 <= b.0 < self@.len(),
            self@[a.0 as int] == self@[b.0 as int],
        ensures
            a == b,
    {
        let s = interned(self.strings);
        if a.0 > 0 {
            assert(s.contains(s[a.0 - 1]));
        }
        if b.0 > 0 {
            assert(s.contains(s[b.0 - 1]));
        }
    }
}

/// Whether a string has no characters.
fn str_is_empty(s: &str) -> (r: bool)
    ensures
        r == (s@.len() == 0),
{
    s.unicode_len() == 0
}

impl Default for IdStringPool {
    fn default() -> (pool: Self)
        ensures
            pool.wf(),
            pool@ == seq![Seq::<char>::empty()],
    {
        IdStringPool::new()
    }
}

/// What can be turned into a handle with the help of a pool.
pub trait IntoIdString: Sized {
    /// The characters behind the value; `None` where it is a handle already.
    spec fn text(self) -> Option<Seq<char>>;

    /// The handle that the value is, where it is one.
    spec fn handle(self) -> IdString;

    fn into_id(self, pool: &mut IdStringPool) -> (id: IdString)
        requires
            old(pool).wf(),
            old(pool)@.len() <= 0x7fff_ffff,
        ensures
            final(pool).wf(),
            match self.text() {
                Some(t) => {
                    &&& 0 <= id.0 < final(pool)@.len()
                    &&& final(pool)@[id.0 as int] == t
                    &&& old(pool)@.contains(t) ==> final(pool)@ == old(pool)@
                    &&& !old(pool)@.contains(t) ==> final(pool)@ == old(pool)@.push(t)
                },
                None => id == self.handle() && final(pool)@ == old(pool)@,
            },
    ;
}

impl IntoIdString for &str {
    open spec fn text(self) -> Option<Seq<char>> {
        Some(self@)
    }

    open spec fn handle(self) -> IdString {
        IdString(0)
    }

    fn into_id(self, pool: &mut IdStringPool) -> (id: IdString) {
        pool.intern(self)
    }
}

impl IntoIdString for IdString {
    open spec fn text(self) -> Option<Seq<char>> {
        None
    }

    open spec fn handle(self) -> IdString {
        self
    }

    fn into_id(self, pool: &mut IdStringPool) -> (id: IdString) {
        self
    }
}

impl IntoIdString for &String {
    open spec fn text(self) -> Option<Seq<char>> {
        Some(self@)
    }

    open spec fn handle(self) -> IdString {
        IdString(0)
    }

    fn into_id(self, pool: &mut IdStringPool) -> (id: IdString) {
        pool.intern(self.as_str())
    }
}

} // verus!
