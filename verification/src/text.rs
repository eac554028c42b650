//! Verified text helpers: string equality, decimal rendering of counters,
//! joining topic lists, and concatenation, each with an exact contract.

use vstd::prelude::*;
use vstd::utf8::{encode_utf8, encode_utf8_decode_utf8};
use vstd::string::StringSliceAdditionalSpecFns;
use vstd::string::{StrSliceExecFns, StringExecFns};
use vstd::utf8::is_ascii_chars;
use crate::message::strings_view;

verus! {

fn bytes_equal(a: &[u8], b: &[u8]) -> (r: bool)
    ensures
        r == (a@ == b@),
{
    if a.len() != b.len() {
        assert(a@.len() != b@.len());
        return false;
    }
    let n = a.len();
    let mut i: usize = 0;
    while i < n
        invariant
            n == a@.len() == b@.len(),
            i <= n,
            forall|j: int| 0 <= j < i ==> a@[j] == b@[j],
        decreases n - i,
    {
        if a[i] != b[i] {
            return false;
        }
        i += 1;
    }
    assert(a@ =~= b@);
    true
}

/// Two string slices hold the same characters. Works by comparing the
/// UTF-8 bytes, which determine the characters uniquely.
pub fn str_eq(a: &str, b: &str) -> (r: bool)
    ensures
        r == (a@ == b@),
{
    let r = bytes_equal(a.as_bytes(), b.as_bytes());
    proof {
        if a.spec_bytes() == b.spec_bytes() {
            encode_utf8_decode_utf8(a@);
            encode_utf8_decode_utf8(b@);
            assert(a@ == b@);
        }
    }
    r
}

/// A topic list contains the given topic.
pub fn contains_topic(topics: &Vec<String>, topic: &str) -> (r: bool)
    ensures
        r == strings_view(topics@).contains(topic@),
{
    let n = topics.len();
    let mut i: usize = 0;
    while i < n
        invariant
            n == topics@.len(),
            i <= n,
            forall|j: int| 0 <= j < i ==> strings_view(topics@)[j] != topic@,
        decreases n - i,
    {
        if str_eq(topics[i].as_str(), topic) {
            assert(strings_view(topics@)[i as int] == topic@);
            return true;
        }
        i += 1;
    }
    assert(forall|j: int| 0 <= j < n ==> strings_view(topics@)[j] != topic@);
    false
}


/// The decimal digit character for `d`.
pub open spec fn digit_char(d: int) -> char
    recommends
        0 <= d < 10,
{
    "0123456789"@[d]
}

/// The decimal rendering of a number, most significant digit first.
pub open spec fn spec_decimal(n: nat) -> Seq<char>
    decreases n,
{
    if n < 10 {
        seq![digit_char(n as int)]
    } else {
        spec_decimal(n / 10) + seq![digit_char((n % 10) as int)]
    }
}

proof fn lemma_digits_ascii()
    ensures
        "0123456789"@.len() == 10,
        is_ascii_chars("0123456789"@),
{
    reveal_strlit("0123456789");
}

/// Render a counter in decimal.
pub fn u64_to_string(n: u64) -> (r: String)
    ensures
        r@ == spec_decimal(n as nat),
    decreases n,
{
    proof {
        lemma_digits_ascii();
    }
    let digits = "0123456789";
    if n < 10 {
        let d = digits.substring_ascii(n as usize, n as usize + 1);
        assert(d@ =~= seq![digit_char(n as int)]);
        d.to_owned()
    } else {
        let prefix = u64_to_string(n / 10);
        let m = n % 10;
        let d = digits.substring_ascii(m as usize, m as usize + 1);
        assert(d@ =~= seq![digit_char(m as int)]);
        let r = prefix.concat(d);
        assert(r@ == spec_decimal((n / 10) as nat) + seq![digit_char((n % 10) as int)]);
        r
    }
}

/// Topics joined with a comma and a space, in order.
pub open spec fn spec_join(ts: Seq<Seq<char>>) -> Seq<char>
    decreases ts.len(),
{
    if ts.len() == 0 {
        Seq::empty()
    } else if ts.len() == 1 {
        ts[0]
    } else {
        ts[0] + ", "@ + spec_join(ts.drop_first())
    }
}

fn join_from(topics: &Vec<String>, i: usize) -> (r: String)
    requires
        i <= topics@.len(),
    ensures
        r@ == spec_join(strings_view(topics@).skip(i as int)),
    decreases topics@.len() - i,
{
    let n = topics.len();
    if i >= n {
        assert(strings_view(topics@).skip(i as int) =~= Seq::<Seq<char>>::empty());
        String::new()
    } else if i == n - 1 {
        let r = topics[i].clone();
        assert(strings_view(topics@).skip(i as int) =~= seq![strings_view(topics@)[i as int]]);
        r
    } else {
        let rest = join_from(topics, i + 1);
        let r = topics[i].clone().concat(", ").concat(rest.as_str());
        proof {
            let sv = strings_view(topics@);
            assert(sv.skip(i as int).len() >= 2);
            assert(sv.skip(i as int)[0] == sv[i as int]);
            assert(sv.skip(i as int).drop_first() =~= sv.skip(i as int + 1));
            assert(r@ =~= sv[i as int] + ", "@ + spec_join(sv.skip(i as int + 1)));
        }
        r
    }
}

/// The topic list joined with `", "`.
pub fn join_topics(topics: &Vec<String>) -> (r: String)
    ensures
        r@ == spec_join(strings_view(topics@)),
{
    let r = join_from(topics, 0);
    assert(strings_view(topics@).skip(0) =~= strings_view(topics@));
    r
}

} // verus!
