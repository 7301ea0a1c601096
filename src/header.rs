//! The elements of a source file's header, as a code formatter groups them: attributes,
//! imports, module declarations and comments, each with the attributes attached to it.

use vstd::prelude::*;
use vstd::utf8::encode_utf8;

verus! {

/// A kind of header line.
#[derive(Debug, Copy, Clone, PartialEq, Eq, Hash)]
pub enum HeaderToken {
    Attrib,
    ModuleAttrib,
    ModuleAttribWarn,
    ModuleAttribAllow,
    ModuleAttribDeny,
    ModuleAttribFeature,
    ModuleAttribFeature2,
    EmptyLine,
    ModuleDoc,
    Comment,
    CrateUse,
    CrateUseStar,
    CratePubUse,
    CratePubUseStar,
    Use,
    UseStar,
    PubUse,
    PubUseStar,
    PubMod,
    /// Never read from a file; inserted to stand for the standard linter configuration.
    StandardLinterConfig,
}

/// What the formatter does with the files it processes.
#[derive(Debug, Clone, Copy, PartialEq, Eq)]
pub enum Action {
    Format,
    Preview,
    FormatAndCheck,
}

/// A header line: its kind, the matched text, and the attribute lines attached before it.
#[derive(Clone, Debug)]
pub struct HeaderElement {
    pub attrs: Vec<String>,
    pub token: HeaderToken,
    pub reg_match: String,
}

/// The UTF-8 length of `s`.
pub open spec fn byte_len(s: Seq<char>) -> nat {
    encode_utf8(s).len()
}

/// The concatenation of the first `k` strings.
pub open spec fn joined(v: Seq<String>, k: int) -> Seq<char>
    decreases k,
{
    if k <= 0 {
        Seq::empty()
    } else {
        joined(v, k - 1) + v[k - 1]@
    }
}

/// The total UTF-8 length of the first `k` strings.
pub open spec fn total_len(v: Seq<String>, k: int) -> nat
    decreases k,
{
    if k <= 0 {
        0
    } else {
        total_len(v, k - 1) + byte_len(v[k - 1]@)
    }
}

proof fn lemma_total_len_monotonic(v: Seq<String>, j: int, k: int)
    requires
        j <= k,
    ensures
        total_len(v, j) <= total_len(v, k),
    decreases k - j,
{
    if j < k {
        lemma_total_len_monotonic(v, j, k - 1);
    }
}

impl HeaderElement {
    /// An element with no attached attributes.
    pub fn new(token: HeaderToken, reg_match: String) -> (r: Self)
        ensures
            r.attrs@.len() == 0,
            r.token == token,
            r.reg_match == reg_match,
    {
        HeaderElement { attrs: Vec::new(), token, reg_match }
    }

    /// The length in bytes of the text the element spans: its attributes and its match.
    pub fn len(&self) -> (r: usize)
        requires
            total_len(self.attrs@, self.attrs@.len() as int) + byte_len(self.reg_match@)
                <= usize::MAX,
        ensures
            r == total_len(self.attrs@, self.attrs@.len() as int) + byte_len(self.reg_match@),
    {
        let mut sum: usize = 0;
        let mut i: usize = 0;
        while i < self.attrs.len()
            invariant
                0 <= i <= self.attrs@.len(),
                sum == total_len(self.attrs@, i as int),
                total_len(self.attrs@, self.attrs@.len() as int) + byte_len(self.reg_match@)
                    <= usize::MAX,
            decreases self.attrs@.len() - i,
        {
            proof {
                lemma_total_len_monotonic(self.attrs@, i + 1, self.attrs@.len() as int);
            }
            sum = sum + self.attrs[i].as_str().len();
            i = i + 1;
        }
        sum + self.reg_match.as_str().len()
    }

    /// The element's text: its attributes, then its match.
    pub fn to_string(&self) -> (r: String)
        ensures
            r@ == joined(self.attrs@, self.attrs@.len() as int) + self.reg_match@,
    {
        let mut out = String::new();
        let mut i: usize = 0;
        while i < self.attrs.len()
            invariant
                0 <= i <= self.attrs@.len(),
                out@ == joined(self.attrs@, i as int),
            decreases self.attrs@.len() - i,
        {
            out.append(self.attrs[i].as_str());
            i = i + 1;
        }
        out.append(self.reg_match.as_str());
        out
    }
}

} // verus!
