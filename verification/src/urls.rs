//! URLs of the viewer's server requests, and the ids it gives to the
//! elements it creates.
use vstd::prelude::*;
use vstd::string::StringExecFns;
use vstd::utf8::encode_utf8;
use crate::numbers::{decimal, decimal_text};

verus! {

/// Bytes that percent-encoding leaves as they are: ASCII letters and
/// digits, `-`, `.`, `_` and `~`.
pub open spec fn url_safe(b: u8) -> bool {
    (0x30 <= b <= 0x39) || (0x41 <= b <= 0x5A) || (0x61 <= b <= 0x7A) || b == 0x2D || b == 0x2E || b == 0x5F
        || b == 0x7E
}

/// The upper-case hexadecimal digit of `d`.
pub open spec fn hex_digit(d: int) -> char {
    if d < 10 {
        (48 + d) as char
    } else {
        (55 + d) as char
    }
}

/// The percent-encoding of the bytes `bs`.
pub open spec fn url_encoded(bs: Seq<u8>) -> Seq<char>
    decreases bs.len(),
{
    if bs.len() == 0 {
        Seq::empty()
    } else {
        let b = bs[0];
        (if url_safe(b) {
            seq![b as char]
        } else {
            seq!['%', hex_digit((b / 16) as int), hex_digit((b % 16) as int)]
        }) + url_encoded(bs.drop_first())
    }
}

/// Calls `urlencoding::encode`, which percent-encodes every byte of the
/// UTF-8 text but ASCII letters and digits and `-`, `.`, `_`, `~`, with
/// upper-case hexadecimal digits.
#[verifier::external_body]
fn url_encode(s: &str) -> (r: String)
    ensures
        r@ == url_encoded(encode_utf8(s@)),
{
    urlencoding::encode(s).into_owned()
}

/// The URL of a content request: `server/content/frag?uri=…` with the
/// encoded URI, then `extra`.
pub open spec fn content_url_text(server: Seq<char>, frag: Seq<char>, uri: Seq<char>, extra: Seq<char>) -> Seq<char> {
    server + "/content/"@ + frag + "?uri="@ + url_encoded(encode_utf8(uri)) + extra
}

/// The URL of a content request.
pub fn content_url(server: &str, frag: &str, uri: &str, extra: &str) -> (r: String)
    ensures
        r@ == content_url_text(server@, frag@, uri@, extra@),
{
    let mut r = String::from_str(server);
    r.append("/content/");
    r.append(frag);
    r.append("?uri=");
    r.append(url_encode(uri).as_str());
    r.append(extra);
    r
}

/// The URL of a whole document: `server/?uri=…` with the encoded URI, or
/// `/?uri=…` without a server.
pub fn top_doc_url(server: Option<&str>, uri: &str) -> (r: String)
    ensures
        r@ == match server {
            Some(s) => s@ + "/?uri="@ + url_encoded(encode_utf8(uri@)),
            None => "/?uri="@ + url_encoded(encode_utf8(uri@)),
        },
{
    let mut r = match server {
        Some(s) => String::from_str(s),
        None => String::new(),
    };
    r.append("/?uri=");
    r.append(url_encode(uri).as_str());
    r
}

/// How often each id prefix has been used, at most one entry per prefix.
pub struct IdCounter {
    pub counts: Vec<(String, u32)>,
}

/// The entry of `prefix`, or -1.
pub open spec fn count_index(s: Seq<(String, u32)>, prefix: Seq<char>) -> int {
    crate::extractor::lfind(s, counts_for(prefix))
}

/// The predicate "is the entry of `prefix`".
pub open spec fn counts_for(prefix: Seq<char>) -> spec_fn((String, u32)) -> bool {
    |e: (String, u32)| e.0@ == prefix
}

/// One step of `IdCounter::new_id` for `prefix`, from the counts `s` to the
/// counts `s2`, giving the id `r`: a known prefix counts one more use and
/// gets the number appended; a new one is recorded with no use and given
/// as it is.
pub open spec fn new_id_step(s: Seq<(String, u32)>, prefix: Seq<char>, s2: Seq<(String, u32)>, r: Seq<char>) -> bool {
    let k = count_index(s, prefix);
    if k >= 0 {
        let c = (s[k].1 + 1) as u32;
        &&& s2 == s.update(k, (s[k].0, c))
        &&& r == prefix + "_"@ + decimal_text(c as nat)
    } else {
        &&& s2.len() == s.len() + 1
        &&& s2.drop_last() == s
        &&& s2.last().0@ == prefix
        &&& s2.last().1 == 0
        &&& r == prefix
    }
}

/// Two ids given one after the other for the same prefix differ.
pub proof fn law_new_id_fresh(
    s0: Seq<(String, u32)>,
    s1: Seq<(String, u32)>,
    s2: Seq<(String, u32)>,
    prefix: Seq<char>,
    r1: Seq<char>,
    r2: Seq<char>,
)
    requires
        new_id_step(s0, prefix, s1, r1),
        new_id_step(s1, prefix, s2, r2),
    ensures
        r1 != r2,
{
    let p = counts_for(prefix);
    let k0 = count_index(s0, prefix);
    let k1 = count_index(s1, prefix);
    reveal_strlit("_");
    if k0 < 0 {
        assert forall|j: int| 0 <= j < s1.len() && (s0.len() < 0 || j < s0.len()) implies !p(#[trigger] s1[j]) by {
            assert(s1[j] == s1.drop_last()[j]);
            crate::extractor::lemma_lfind_none_at(s0, p, j);
        }
        crate::extractor::lemma_lfind(s1, p, s0.len() as int);
        assert(k1 == s0.len());
        assert(r2.len() > prefix.len());
    } else {
        crate::extractor::lemma_lfind_bounds(s0, p);
        let c1 = (s0[k0].1 + 1) as u32;
        assert forall|i: int| 0 <= i < s0.len() implies p(#[trigger] s0[i]) == p(s1[i]) by {
            if i == k0 {
                assert(s1[i].0 == s0[i].0);
            } else {
                assert(s1[i] == s0[i]);
            }
        }
        crate::extractor::lemma_lfind_same_hits(s0, s1, p);
        assert(k1 == k0);
        let c2 = (s1[k1].1 + 1) as u32;
        assert(((c1 + 1) as u32) != c1) by (bit_vector);
        assert(c2 != c1);
        if r1 == r2 {
            let n = prefix.len() as int + 1;
            assert(r1.skip(n) =~= decimal_text(c1 as nat));
            assert(r2.skip(n) =~= decimal_text(c2 as nat));
            crate::numbers::lemma_decimal_text_injective(c1 as nat, c2 as nat);
        }
    }
}

impl IdCounter {
    pub fn new() -> (r: Self)
        ensures
            r.counts@.len() == 0,
    {
        IdCounter { counts: Vec::new() }
    }

    /// A fresh id with `prefix`: the prefix itself the first time, then
    /// `prefix_1`, `prefix_2`, …
    pub fn new_id(&mut self, prefix: &str) -> (r: String)
        requires
            count_index(old(self).counts@, prefix@) >= 0 ==> old(self).counts@[count_index(
                old(self).counts@,
                prefix@,
            )].1 < u32::MAX,
        ensures
            new_id_step(old(self).counts@, prefix@, final(self).counts@, r@),
    {
        let ghost p = counts_for(prefix@);
        let key = String::from_str(prefix);
        let mut i: usize = 0;
        while i < self.counts.len()
            invariant
                p == counts_for(prefix@),
                key@ == prefix@,
                self.counts@ == old(self).counts@,
                count_index(old(self).counts@, prefix@) >= 0 ==> old(self).counts@[count_index(
                    old(self).counts@,
                    prefix@,
                )].1 < u32::MAX,
                i <= self.counts@.len(),
                forall|j: int| 0 <= j < i ==> !p(#[trigger] self.counts@[j]),
            decreases self.counts@.len() - i,
        {
            if self.counts[i].0 == key {
                proof {
                    assert(p(self.counts@[i as int]));
                    crate::extractor::lemma_lfind(self.counts@, p, i as int);
                }
                let (k, c) = self.counts.remove(i);
                let c2 = c + 1;
                let mut r = String::from_str(prefix);
                r.append("_");
                r.append(decimal(c2 as u64).as_str());
                self.counts.insert(i, (k, c2));
                proof {
                    assert(self.counts@ =~= old(self).counts@.update(i as int, (old(self).counts@[i as int].0, c2)));
                }
                return r;
            }
            i = i + 1;
        }
        proof {
            crate::extractor::lemma_lfind(self.counts@, p, -1);
        }
        self.counts.push((key, 0));
        proof {
            assert(self.counts@.drop_last() =~= old(self).counts@);
        }
        String::from_str(prefix)
    }
}

} // verus!
