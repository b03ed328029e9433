//! The attribute-token registry.
//!
//! Every recognized escape sequence that changes display attributes is
//! resolved to an opaque [`AttrToken`].  The registry owns the mapping
//! and is its sole authority: byte-identical codes always resolve to the
//! same token, and a new code gets the next free token.  Tokens start
//! above a small range left free for a rendering backend's own
//! predefined attributes.

use vstd::prelude::*;

verus! {

/// An opaque, copyable handle standing for one interpreted escape code.
pub type AttrToken = u16;

/// The first token the registry hands out; smaller values stay free for
/// a rendering backend's predefined attributes.
pub const FIRST_TOKEN: AttrToken = 11;

/// How many distinct codes the registry can hold before its token space,
/// kept well inside the sixteen-bit token type, is exhausted.
pub const REGISTRY_CAPACITY: usize = 60000;

/// The one shared token handed out for any code seen only after the
/// registry is full; its value is `FIRST_TOKEN + REGISTRY_CAPACITY`.
pub const OVERFLOW_TOKEN: AttrToken = 60011;

/// Index of the first occurrence of `code` in `codes`, or `codes.len()`
/// when it does not occur.
pub open spec fn first_index_of(codes: Seq<Seq<char>>, code: Seq<char>) -> int
    decreases codes.len(),
{
    if codes.len() == 0 {
        0
    } else if codes[0] == code {
        0
    } else {
        1 + first_index_of(codes.skip(1), code)
    }
}

/// Codes registered so far are pairwise distinct and fit the capacity.
pub open spec fn reg_wf(codes: Seq<Seq<char>>) -> bool {
    &&& codes.len() <= REGISTRY_CAPACITY
    &&& forall|i: int, j: int| 0 <= i < j < codes.len() ==> codes[i] != codes[j]
}

/// The token that resolving `code` against the registered `codes` yields:
/// the token of its first occurrence, the next free token for a new code,
/// or the shared overflow token once the registry is full.
pub open spec fn token_for(codes: Seq<Seq<char>>, code: Seq<char>) -> AttrToken {
    let k = first_index_of(codes, code);
    if k < codes.len() {
        (FIRST_TOKEN + k) as AttrToken
    } else if codes.len() < REGISTRY_CAPACITY {
        (FIRST_TOKEN + codes.len()) as AttrToken
    } else {
        OVERFLOW_TOKEN
    }
}

/// The registered codes after resolving `code`: unchanged when the code
/// is already present or the registry is full, else extended by it.
pub open spec fn register_model(codes: Seq<Seq<char>>, code: Seq<char>) -> Seq<Seq<char>> {
    if first_index_of(codes, code) < codes.len() || codes.len() >= REGISTRY_CAPACITY {
        codes
    } else {
        codes.push(code)
    }
}

pub proof fn lemma_first_index_of(codes: Seq<Seq<char>>, code: Seq<char>)
    ensures
        0 <= first_index_of(codes, code) <= codes.len(),
        first_index_of(codes, code) < codes.len() ==> codes[first_index_of(codes, code)]
            == code,
        forall|i: int| 0 <= i < first_index_of(codes, code) ==> codes[i] != code,
    decreases codes.len(),
{
    if codes.len() > 0 && codes[0] != code {
        lemma_first_index_of(codes.skip(1), code);
        assert forall|i: int| 0 <= i < first_index_of(codes, code) implies codes[i]
            != code by {
            if i > 0 {
                assert(codes.skip(1)[i - 1] == codes[i]);
            }
        }
        if first_index_of(codes, code) < codes.len() {
            assert(codes.skip(1)[first_index_of(codes, code) - 1]
                == codes[first_index_of(codes, code)]);
        }
    }
}

/// Registering keeps the registry well formed.
pub proof fn lemma_register_model_wf(codes: Seq<Seq<char>>, code: Seq<char>)
    requires
        reg_wf(codes),
    ensures
        reg_wf(register_model(codes, code)),
{
    lemma_first_index_of(codes, code);
    let codes2 = register_model(codes, code);
    if codes2 != codes {
        assert forall|i: int, j: int| 0 <= i < j < codes2.len() implies codes2[i]
            != codes2[j] by {
            if j == codes.len() {
                assert(codes2[i] == codes[i]);
                assert(codes2[j] == code);
            }
        }
    }
}

/// Equal codes resolve to equal tokens even across one registration of
/// either of them: registration never changes what a code resolves to.
pub proof fn lemma_token_stable(codes: Seq<Seq<char>>, code: Seq<char>)
    requires
        reg_wf(codes),
    ensures
        token_for(register_model(codes, code), code) == token_for(codes, code),
{
    lemma_first_index_of(codes, code);
    let codes2 = register_model(codes, code);
    if codes2 != codes {
        lemma_first_index_extend(codes, code, code);
    }
}

/// Appending a new code leaves the first occurrence of any already
/// present code where it was, and puts the new code at the end.
pub proof fn lemma_first_index_extend(codes: Seq<Seq<char>>, added: Seq<char>, code: Seq<char>)
    ensures
        first_index_of(codes, code) < codes.len() ==> first_index_of(
            codes.push(added),
            code,
        ) == first_index_of(codes, code),
        first_index_of(codes, code) == codes.len() && added == code ==> first_index_of(
            codes.push(added),
            code,
        ) == codes.len(),
        first_index_of(codes, code) == codes.len() && added != code ==> first_index_of(
            codes.push(added),
            code,
        ) == codes.len() + 1,
    decreases codes.len(),
{
    lemma_first_index_of(codes, code);
    if codes.len() == 0 {
        assert(codes.push(added)[0] == added);
        if added != code {
            assert(codes.push(added).skip(1) =~= Seq::<Seq<char>>::empty().push(added).skip(
                1,
            ));
            assert(first_index_of(codes.push(added), code) == 1 + first_index_of(
                codes.push(added).skip(1),
                code,
            ));
        }
    } else {
        assert(codes.push(added)[0] == codes[0]);
        if codes[0] != code {
            assert(codes.push(added).skip(1) =~= codes.skip(1).push(added));
            lemma_first_index_extend(codes.skip(1), added, code);
            lemma_first_index_of(codes.skip(1), code);
        }
    }
}

/// The deduplicating store behind token resolution.
pub struct AttrRegistry {
    pub codes: Vec<String>,
}

impl AttrRegistry {
    /// The registered codes, oldest first, as character sequences.
    pub open spec fn codes_view(&self) -> Seq<Seq<char>> {
        self.codes@.map_values(|c: String| c@)
    }

    pub open spec fn wf(&self) -> bool {
        reg_wf(self.codes_view())
    }

    pub fn new() -> (r: AttrRegistry)
        ensures
            r.codes_view() == Seq::<Seq<char>>::empty(),
            r.wf(),
    {
        let r = AttrRegistry { codes: Vec::new() };
        proof {
            assert(r.codes_view() =~= Seq::<Seq<char>>::empty());
        }
        r
    }

    /// Resolve `code` to its token, registering it when it is new.
    pub fn register(&mut self, code: &str) -> (t: AttrToken)
        requires
            old(self).wf(),
        ensures
            final(self).wf(),
            final(self).codes_view() == register_model(old(self).codes_view(), code@),
            t == token_for(old(self).codes_view(), code@),
    {
        proof {
            lemma_first_index_of(old(self).codes_view(), code@);
            lemma_register_model_wf(old(self).codes_view(), code@);
        }
        let n = self.codes.len();
        let mut k: usize = 0;
        loop
            invariant
                *self == *old(self),
                self.wf(),
                n == self.codes.len(),
                k <= n,
                forall|i: int| 0 <= i < k ==> self.codes_view()[i] != code@,
            ensures
                *self == *old(self),
                n == self.codes.len(),
                forall|i: int| 0 <= i < n ==> self.codes_view()[i] != code@,
            decreases n - k,
        {
            if k >= n {
                break ;
            }
            let stored: &String = &self.codes[k];
            if str_eq(stored.as_str(), code) {
                proof {
                    lemma_first_index_of(self.codes_view(), code@);
                    let fi = first_index_of(self.codes_view(), code@);
                    assert(self.codes_view()[k as int] == code@);
                    if fi < k {
                        assert(self.codes_view()[fi] == code@);
                    }
                    if fi > k {
                        assert(self.codes_view()[k as int] != code@);
                    }
                    assert(fi == k);
                }
                return FIRST_TOKEN + (k as u16);
            }
            k = k + 1;
        }
        proof {
            lemma_first_index_of(self.codes_view(), code@);
            let fi = first_index_of(self.codes_view(), code@);
            if fi < self.codes_view().len() {
                assert(self.codes_view()[fi] == code@);
            }
            assert(fi == self.codes_view().len());
        }
        if n < REGISTRY_CAPACITY {
            let owned = String::from_str(code);
            self.codes.push(owned);
            proof {
                assert(self.codes_view() =~= register_model(old(self).codes_view(), code@));
            }
            FIRST_TOKEN + (n as u16)
        } else {
            OVERFLOW_TOKEN
        }
    }
}

/// Character-for-character string equality, the equality the registry
/// deduplicates by.
pub fn str_eq(a: &str, b: &str) -> (r: bool)
    ensures
        r == (a@ == b@),
{
    let na = a.unicode_len();
    let nb = b.unicode_len();
    if na != nb {
        return false;
    }
    let mut i: usize = 0;
    loop
        invariant
            na == a@.len(),
            na == b@.len(),
            i <= na,
            forall|j: int| 0 <= j < i ==> a@[j] == b@[j],
        decreases na - i,
    {
        if i >= na {
            proof {
                assert(a@ =~= b@);
            }
            return true;
        }
        if a.get_char(i) != b.get_char(i) {
            return false;
        }
        i = i + 1;
    }
}

} // verus!
