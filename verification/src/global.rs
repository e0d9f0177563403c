//! Values that are made once per application and found again by a key.

use vstd::prelude::*;
use std::marker::PhantomData;
use crate::text::str_eq;

verus! {

/// A key that identifies a global value: a place in the source, or a name.
#[derive(Clone, Copy, Debug, PartialEq, Eq, Hash)]
pub struct GlobalKey<'a> {
    file: &'a str,
    line: u32,
    column: u32,
}

impl<'a> View for GlobalKey<'a> {
    type V = (Seq<char>, u32, u32);

    /// The file, the line and the column.
    closed spec fn view(&self) -> (Seq<char>, u32, u32) {
        (self.file@, self.line, self.column)
    }
}

impl<'a> GlobalKey<'a> {
    /// The key of a place in the source.
    pub fn new(file: &'a str, line: u32, column: u32) -> (key: Self)
        ensures
            key@ == (file@, line, column),
    {
        GlobalKey { file, line, column }
    }

    /// The key of a name: the name stands where a file would, at line 0 and
    /// column 0.
    pub fn new_from_str(key: &'a str) -> (made: Self)
        ensures
            made@ == (key@, 0u32, 0u32),
    {
        GlobalKey { file: key, line: 0, column: 0 }
    }

    /// Whether two keys are the same key.
    pub fn same(&self, other: &GlobalKey<'_>) -> (same: bool)
        ensures
            same == (self@ == other@),
    {
        self.line == other.line && self.column == other.column && str_eq(self.file, other.file)
    }
}

impl From<&'static str> for GlobalKey<'static> {
    /// The key of a name.
    fn from(key: &'static str) -> (made: Self)
        ensures
            made@ == (key@, 0u32, 0u32),
    {
        GlobalKey { file: key, line: 0, column: 0 }
    }
}

impl vstd::std_specs::convert::FromSpecImpl<&'static str> for GlobalKey<'static> {
    open spec fn obeys_from_spec() -> bool {
        true
    }

    closed spec fn from_spec(key: &'static str) -> Self {
        GlobalKey { file: key, line: 0, column: 0 }
    }
}

/// A thing that can be made from a function that makes its content.
pub trait InitializeFromFunction<T>: Sized {
    /// Whether the thing is one that is made from `content`.
    spec fn made_from(&self, content: T) -> bool;

    /// Makes the thing from what the function makes.
    fn initialize_from_function<F: Fn() -> T>(f: &F) -> (made: Self)
        requires
            call_requires(*f, ()),
        ensures
            exists|content: T| call_ensures(*f, (), content) && made.made_from(content),
    ;
}

impl<T> InitializeFromFunction<T> for T {
    /// A thing is its own content.
    open spec fn made_from(&self, content: T) -> bool {
        *self == content
    }

    /// The function is called once, and what it makes is the thing.
    fn initialize_from_function<F: Fn() -> T>(f: &F) -> (made: Self) {
        let made = f();
        assert(call_ensures(*f, (), made) && made.made_from(made));
        made
    }
}

/// The values that were made so far, each under the key of its global. No
/// key occurs twice.
pub struct GlobalSignalContext<T> {
    signal: Vec<(GlobalKey<'static>, T)>,
}

impl<T> View for GlobalSignalContext<T> {
    type V = Seq<((Seq<char>, u32, u32), T)>;

    /// The keys and values, in the order in which they were made.
    closed spec fn view(&self) -> Seq<((Seq<char>, u32, u32), T)> {
        Seq::new(self.signal@.len(), |i: int| (self.signal@[i].0@, self.signal@[i].1))
    }
}

/// The first place at which `key` stands, if it stands anywhere.
pub open spec fn place_of_key<T>(
    entries: Seq<((Seq<char>, u32, u32), T)>,
    key: (Seq<char>, u32, u32),
) -> Option<int> {
    if exists|i: int| 0 <= i < entries.len() && (#[trigger] entries[i]).0 == key {
        Some(
            choose|i: int|
                0 <= i < entries.len() && (#[trigger] entries[i]).0 == key && forall|j: int|
                    0 <= j < i ==> (#[trigger] entries[j]).0 != key,
        )
    } else {
        None
    }
}

/// Whether no key occurs twice.
pub open spec fn keys_distinct<T>(entries: Seq<((Seq<char>, u32, u32), T)>) -> bool {
    forall|i: int, j: int|
        0 <= i < j < entries.len() ==> (#[trigger] entries[i]).0 != (#[trigger] entries[j]).0
}

impl<T> GlobalSignalContext<T> {
    #[verifier::type_invariant]
    spec fn each_key_once(&self) -> bool {
        keys_distinct(self@)
    }

    /// The number of values that were made.
    pub fn len(&self) -> (n: usize)
        ensures
            n == self@.len(),
            keys_distinct(self@),
    {
        proof {
            use_type_invariant(self);
        }
        self.signal.len()
    }

    /// Keeps a value under a key that has none yet.
    fn keep(&mut self, key: GlobalKey<'static>, made: T)
        requires
            place_of_key(old(self)@, key@) is None,
        ensures
            final(self)@ == old(self)@.push((key@, made)),
            keys_distinct(final(self)@),
    {
        proof {
            use_type_invariant(&*self);
        }
        let ghost before = self@;
        let mut signal: Vec<(GlobalKey<'static>, T)> = Vec::new();
        std::mem::swap(&mut signal, &mut self.signal);
        signal.push((key, made));
        proof {
            let after = Seq::new(signal@.len(), |i: int| (signal@[i].0@, signal@[i].1));
            assert(after =~= before.push((key@, made)));
            assert forall|i: int, j: int| 0 <= i < j < after.len() implies (#[trigger] after[i]).0
                != (#[trigger] after[j]).0 by {
                if j < before.len() {
                    assert(before[i].0 != before[j].0);
                } else {
                    assert(before[i].0 != key@);
                }
            }
        }
        self.signal = signal;
        assert(self@ =~= before.push((key@, made)));
    }

    /// A context in which nothing was made yet.
    pub fn new() -> (context: Self)
        ensures
            context@ == Seq::<((Seq<char>, u32, u32), T)>::empty(),
    {
        let context = GlobalSignalContext { signal: Vec::new() };
        assert(context@ =~= Seq::<((Seq<char>, u32, u32), T)>::empty());
        context
    }

    fn find(&self, key: &GlobalKey<'_>) -> (found: Option<usize>)
        ensures
            match found {
                Some(i) => place_of_key(self@, key@) == Some(i as int) && i < self@.len()
                    && self@[i as int].0 == key@,
                None => place_of_key(self@, key@) is None,
            },
    {
        let mut i: usize = 0;
        while i < self.signal.len()
            invariant
                i <= self.signal.len(),
                self@.len() == self.signal.len(),
                forall|j: int| 0 <= j < i ==> (#[trigger] self@[j]).0 != key@,
            decreases self.signal.len() - i,
        {
            if self.signal[i].0.same(key) {
                proof {
                    assert(self@[i as int].0 == key@);
                    let chosen = place_of_key(self@, key@)->0;
                    assert(0 <= chosen < self@.len() && self@[chosen].0 == key@ && forall|j: int|
                        0 <= j < chosen ==> (#[trigger] self@[j]).0 != key@) by {
                        assert(forall|j: int| 0 <= j < i ==> (#[trigger] self@[j]).0 != key@);
                    }
                    if chosen < i {
                        assert(self@[chosen].0 != key@);
                    }
                    if i < chosen {
                        assert(self@[i as int].0 != key@);
                    }
                }
                return Some(i);
            }
            i += 1;
        }
        None
    }

    fn value_at(&self, i: usize) -> (value: &T)
        requires
            i < self@.len(),
        ensures
            *value == self@[i as int].1,
    {
        &self.signal[i].1
    }

    /// The value that was made under the name `key`.
    pub fn get_signal_with_key(&self, key: &str) -> (found: Option<&T>)
        ensures
            match place_of_key(self@, (key@, 0u32, 0u32)) {
                Some(i) => found matches Some(value) && *value == self@[i].1,
                None => found is None,
            },
    {
        let key = GlobalKey::new_from_str(key);
        match self.find(&key) {
            Some(i) => Some(&self.signal[i].1),
            None => None,
        }
    }
}

/// A value that is made when it is first asked for, and found under its key
/// from then on.
#[verifier::reject_recursive_types(T)]
#[verifier::reject_recursive_types(R)]
#[verifier::reject_recursive_types(F)]
pub struct LazyGlobal<T, R, F: Fn() -> R> {
    constructor: F,
    key: GlobalKey<'static>,
    phantom: PhantomData<(T, R)>,
}

impl<T, R, F: Fn() -> R> LazyGlobal<T, R, F> {
    /// The function that makes the content.
    pub closed spec fn constructor(&self) -> F {
        self.constructor
    }

    /// The key of the global.
    pub closed spec fn spec_key(&self) -> (Seq<char>, u32, u32) {
        self.key@
    }

    /// A global that is keyed by the place in the source where it is made.
    pub fn new(constructor: F, file: &'static str, line: u32, column: u32) -> (global: Self)
        ensures
            global.spec_key() == (file@, line, column),
            global.constructor() == constructor,
    {
        Self { constructor, key: GlobalKey::new(file, line, column), phantom: PhantomData }
    }

    /// A global with a key of its own, which makes it findable from outside
    /// the application too.
    pub fn with_key(constructor: F, key: &'static str) -> (global: Self)
        ensures
            global.spec_key() == (key@, 0u32, 0u32),
            global.constructor() == constructor,
    {
        Self { constructor, key: GlobalKey::new_from_str(key), phantom: PhantomData }
    }

    /// The key of this global.
    pub fn key(&self) -> (key: GlobalKey<'static>)
        ensures
            key@ == self.spec_key(),
    {
        self.key
    }
}

impl<T: Clone + InitializeFromFunction<R>, R, F: Fn() -> R> LazyGlobal<T, R, F> {
    /// The value of the global in `context`. The first time it is made from
    /// the constructor and kept; from then on the kept value is copied out and
    /// the constructor is not called.
    pub fn resolve(&self, context: &mut GlobalSignalContext<T>) -> (value: T)
        requires
            call_requires(self.constructor(), ()),
        ensures
            keys_distinct(final(context)@),
            match place_of_key(old(context)@, self.spec_key()) {
                Some(i) => final(context)@ == old(context)@ && cloned(old(context)@[i].1, value),
                None => {
                    let after = final(context)@;
                    &&& after.len() == old(context)@.len() + 1
                    &&& after.drop_last() == old(context)@
                    &&& after.last().0 == self.spec_key()
                    &&& exists|content: R|
                        call_ensures(self.constructor(), (), content) && after.last().1.made_from(
                            content,
                        )
                    &&& cloned(after.last().1, value)
                },
            },
    {
        proof {
            use_type_invariant(&*context);
        }
        match context.find(&self.key) {
            Some(i) => context.value_at(i).clone(),
            None => {
                let made = T::initialize_from_function(&self.constructor);
                let value = made.clone();
                context.keep(self.key, made);
                assert(context@.drop_last() =~= old(context)@);
                value
            },
        }
    }
}

} // verus!
