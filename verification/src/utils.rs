use vstd::prelude::*;
use crate::errors::Error;

verus! {

/// `items` with a copy of `sep` between every two neighbours.
pub open spec fn spec_intersperse<T>(items: Seq<T>, sep: T) -> Seq<T>
    decreases items.len(),
{
    if items.len() == 0 {
        Seq::empty()
    } else if items.len() == 1 {
        items
    } else {
        seq![items[0], sep] + spec_intersperse(items.drop_first(), sep)
    }
}

/// Produce the items of `items`, inserting a copy of `sep` in between each
/// pair of neighbours.
pub fn intersperse<T: Copy>(items: &Vec<T>, sep: T) -> (r: Vec<T>)
    ensures
        r@ == spec_intersperse(items@, sep),
{
    let mut r: Vec<T> = Vec::new();
    let n = items.len();
    if n == 0 {
        proof {
            assert(r@ =~= spec_intersperse(items@, sep));
        }
        return r;
    }
    r.push(items[0]);
    let mut i: usize = 1;
    proof {
        assert(items@.take(1) =~= seq![items@[0]]);
        assert(r@ =~= spec_intersperse(items@.take(1), sep));
    }
    while i < n
        invariant
            n == items@.len(),
            1 <= i <= n,
            r@ == spec_intersperse(items@.take(i as int), sep),
        decreases n - i,
    {
        r.push(sep);
        r.push(items[i]);
        proof {
            lemma_intersperse_push(items@, sep, i as int);
        }
        i = i + 1;
    }
    proof {
        assert(items@.take(n as int) =~= items@);
    }
    r
}

/// Appending one more item appends the separator and the item.
proof fn lemma_intersperse_push<T>(items: Seq<T>, sep: T, i: int)
    requires
        1 <= i < items.len(),
    ensures
        spec_intersperse(items.take(i + 1), sep) == spec_intersperse(items.take(i), sep) + seq![
            sep,
            items[i],
        ],
    decreases i,
{
    if i == 1 {
        assert(items.take(2) =~= seq![items[0], items[1]]);
        assert(items.take(2).drop_first() =~= seq![items[1]]);
        assert(items.take(1) =~= seq![items[0]]);
        assert(spec_intersperse(seq![items[1]], sep) =~= seq![items[1]]);
        assert(spec_intersperse(items.take(2), sep) =~= seq![items[0], sep, items[1]]);
        assert(spec_intersperse(items.take(1), sep) + seq![sep, items[1]] =~= seq![
            items[0],
            sep,
            items[1],
        ]);
    } else {
        lemma_intersperse_push(items.drop_first(), sep, i - 1);
        assert(items.take(i + 1).drop_first() =~= items.drop_first().take(i));
        assert(items.take(i).drop_first() =~= items.drop_first().take(i - 1));
        assert(items.take(i + 1)[0] == items[0]);
        assert(items.take(i)[0] == items[0]);
        assert(items.take(i + 1).len() >= 2);
        assert(items.take(i).len() >= 2);
        assert(items.drop_first()[i - 1] == items[i]);
        assert(spec_intersperse(items.take(i + 1), sep) == seq![items[0], sep] + (spec_intersperse(
            items.drop_first().take(i - 1),
            sep,
        ) + seq![sep, items[i]]));
        assert(seq![items[0], sep] + (spec_intersperse(items.drop_first().take(i - 1), sep) + seq![
            sep,
            items[i],
        ]) =~= (seq![items[0], sep] + spec_intersperse(items.drop_first().take(i - 1), sep)) + seq![
            sep,
            items[i],
        ]);
    }
}

/// Prefix an error's message, leaving successes untouched.
pub fn try_forward<T>(r: Result<T, Error>, prefix: &str) -> (out: Result<T, Error>)
    ensures
        match r {
            Ok(_) => out matches Ok(v) && r matches Ok(v0) && v == v0,
            Err(e) => out matches Err(e2) && e2@ == prefix@ + ": "@ + e@,
        },
{
    match r {
        Ok(v) => Ok(v),
        Err(e) => {
            let mut m = String::from_str(prefix);
            m.append(": ");
            m.append(e.message().as_str());
            Err(Error::new(m))
        },
    }
}

/// Wrap a plain message in the library's error type.
pub fn error(msg: &str) -> (r: Error)
    ensures
        r@ == msg@,
{
    Error::new(String::from_str(msg))
}

/// A byte is ASCII whitespace: space, tab, newline, form feed or carriage
/// return.
pub open spec fn is_ascii_ws(b: u8) -> bool {
    b == 32 || b == 9 || b == 10 || b == 12 || b == 13
}

/// The number of whitespace bytes at the front.
pub open spec fn leading_ws(s: Seq<u8>) -> int
    decreases s.len(),
{
    if s.len() == 0 || !is_ascii_ws(s[0]) {
        0
    } else {
        1 + leading_ws(s.drop_first())
    }
}

/// The number of whitespace bytes at the back.
pub open spec fn trailing_ws(s: Seq<u8>) -> int
    decreases s.len(),
{
    if s.len() == 0 || !is_ascii_ws(s.last()) {
        0
    } else {
        1 + trailing_ws(s.drop_last())
    }
}

/// `s` with ASCII whitespace removed from both ends.
pub open spec fn trim_ws(s: Seq<u8>) -> Seq<u8> {
    let s1 = s.skip(leading_ws(s));
    s1.take(s1.len() - trailing_ws(s1))
}

/// Trimming of ASCII whitespace from byte slices.
pub trait ByteSliceExt {
    fn trim_whitespace_start(&self) -> (r: &[u8]);

    fn trim_whitespace_end(&self) -> (r: &[u8]);
}

proof fn lemma_leading_ws_bounds(s: Seq<u8>)
    ensures
        0 <= leading_ws(s) <= s.len(),
        forall|j: int| 0 <= j < leading_ws(s) ==> is_ascii_ws(#[trigger] s[j]),
        leading_ws(s) < s.len() ==> !is_ascii_ws(s[leading_ws(s)]),
    decreases s.len(),
{
    if s.len() > 0 && is_ascii_ws(s[0]) {
        lemma_leading_ws_bounds(s.drop_first());
        assert forall|j: int| 0 <= j < leading_ws(s) implies is_ascii_ws(#[trigger] s[j]) by {
            if j > 0 {
                assert(s.drop_first()[j - 1] == s[j]);
            }
        }
        if leading_ws(s) < s.len() {
            assert(s.drop_first()[leading_ws(s) - 1] == s[leading_ws(s)]);
        }
    }
}

proof fn lemma_trailing_ws_bounds(s: Seq<u8>)
    ensures
        0 <= trailing_ws(s) <= s.len(),
        forall|j: int| s.len() - trailing_ws(s) <= j < s.len() ==> is_ascii_ws(#[trigger] s[j]),
        trailing_ws(s) < s.len() ==> !is_ascii_ws(s[s.len() - trailing_ws(s) - 1]),
    decreases s.len(),
{
    if s.len() > 0 && is_ascii_ws(s.last()) {
        lemma_trailing_ws_bounds(s.drop_last());
        assert forall|j: int| s.len() - trailing_ws(s) <= j < s.len() implies is_ascii_ws(
            #[trigger] s[j],
        ) by {
            if j < s.len() - 1 {
                assert(s.drop_last()[j] == s[j]);
            }
        }
        if trailing_ws(s) < s.len() {
            assert(s.drop_last()[s.len() - trailing_ws(s) - 1] == s[s.len() - trailing_ws(s) - 1]);
        }
    }
}

impl ByteSliceExt for [u8] {
    /// The slice with leading ASCII whitespace removed.
    fn trim_whitespace_start(&self) -> (r: &[u8])
        ensures
            r@ == self@.skip(leading_ws(self@)),
    {
        proof {
            lemma_leading_ws_bounds(self@);
        }
        let n = self.len();
        let mut i: usize = 0;
        while i < n && (self[i] == 32 || self[i] == 9 || self[i] == 10 || self[i] == 12 || self[i]
            == 13)
            invariant
                n == self@.len(),
                0 <= i <= n,
                forall|j: int| 0 <= j < i ==> is_ascii_ws(#[trigger] self@[j]),
                i <= leading_ws(self@),
            decreases n - i,
        {
            proof {
                lemma_leading_ws_bounds(self@);
                if leading_ws(self@) == i {
                    assert(!is_ascii_ws(self@[i as int]));
                }
            }
            i = i + 1;
        }
        proof {
            lemma_leading_ws_bounds(self@);
            if i < n {
                assert(!is_ascii_ws(self@[i as int]));
                if i < leading_ws(self@) {
                    assert(is_ascii_ws(self@[i as int]));
                }
            }
            assert(i == leading_ws(self@));
        }
        vstd::slice::slice_subrange(self, i, n)
    }

    /// The slice with trailing ASCII whitespace removed.
    fn trim_whitespace_end(&self) -> (r: &[u8])
        ensures
            r@ == self@.take(self@.len() - trailing_ws(self@)),
    {
        proof {
            lemma_trailing_ws_bounds(self@);
        }
        let n = self.len();
        let mut i: usize = n;
        while i > 0 && (self[i - 1] == 32 || self[i - 1] == 9 || self[i - 1] == 10 || self[i - 1]
            == 12 || self[i - 1] == 13)
            invariant
                n == self@.len(),
                0 <= i <= n,
                forall|j: int| i <= j < n ==> is_ascii_ws(#[trigger] self@[j]),
                n - i <= trailing_ws(self@),
            decreases i,
        {
            proof {
                lemma_trailing_ws_bounds(self@);
                if trailing_ws(self@) == n - i {
                    assert(!is_ascii_ws(self@[n - trailing_ws(self@) - 1]));
                }
            }
            i = i - 1;
        }
        proof {
            lemma_trailing_ws_bounds(self@);
            if i > 0 {
                assert(!is_ascii_ws(self@[i - 1]));
                if n - i < trailing_ws(self@) {
                    assert(is_ascii_ws(self@[i - 1]));
                }
            }
            assert(n - i == trailing_ws(self@));
        }
        vstd::slice::slice_subrange(self, 0, i)
    }
}

} // verus!
