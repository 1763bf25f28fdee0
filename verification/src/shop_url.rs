//! Shop identifier validation.
//!
//! A trusted shop identifier must match, in full, the platform's hostname
//! grammar: one alphanumeric character, then zero or more alphanumeric or
//! hyphen characters, then the literal suffix `.myshopify.com`.

use vstd::prelude::*;

use crate::ShopifyApp;

verus! {

/// An ASCII letter or digit, the only characters the grammar admits at the
/// start of a shop name.
pub open spec fn is_alnum(c: char) -> bool {
    ('a' <= c && c <= 'z') || ('A' <= c && c <= 'Z') || ('0' <= c && c <= '9')
}

/// A character the grammar admits in the rest of the shop name.
pub open spec fn is_label_char(c: char) -> bool {
    is_alnum(c) || c == '-'
}

/// The fixed hostname suffix every valid shop identifier ends with.
pub open spec fn shop_suffix() -> Seq<char> {
    ".myshopify.com"@
}

/// The platform's hostname grammar, anchored at both ends: one alphanumeric
/// character, zero or more alphanumeric-or-hyphen characters, then exactly
/// the suffix `.myshopify.com`.
pub open spec fn valid_shop(s: Seq<char>) -> bool {
    &&& s.len() >= 15
    &&& is_alnum(s[0])
    &&& forall|i: int| 1 <= i < s.len() - 14 ==> is_label_char(#[trigger] s[i])
    &&& s.subrange(s.len() - 14, s.len() as int) == shop_suffix()
}

fn is_alnum_exec(c: char) -> (r: bool)
    ensures
        r == is_alnum(c),
{
    ('a' <= c && c <= 'z') || ('A' <= c && c <= 'Z') || ('0' <= c && c <= '9')
}

impl ShopifyApp {
    /// Decides whether `shop` is a syntactically valid shop identifier; it
    /// accepts exactly the strings that match the hostname grammar.
    pub fn shopify_url(shop: &str) -> (r: bool)
        ensures
            r == valid_shop(shop@),
    {
        proof {
            reveal_strlit(".myshopify.com");
        }
        let n = shop.unicode_len();
        if n < 15 {
            return false;
        }
        if !is_alnum_exec(shop.get_char(0)) {
            return false;
        }
        let mut i: usize = 1;
        while i < n - 14
            invariant
                1 <= i <= n - 14,
                n == shop@.len(),
                15 <= n,
                forall|j: int| 1 <= j < i ==> is_label_char(#[trigger] shop@[j]),
            decreases n - 14 - i,
        {
            let c = shop.get_char(i);
            if !(is_alnum_exec(c) || c == '-') {
                return false;
            }
            i += 1;
        }
        let suffix = ".myshopify.com";
        let mut j: usize = 0;
        while j < 14
            invariant
                0 <= j <= 14,
                n == shop@.len(),
                15 <= n,
                suffix@ == shop_suffix(),
                suffix@.len() == 14,
                forall|k: int| 0 <= k < j ==> shop@[n - 14 + k] == #[trigger] suffix@[k],
            decreases 14 - j,
        {
            if shop.get_char(n - 14 + j) != suffix.get_char(j) {
                assert(shop@.subrange(n - 14, n as int)[j as int] != shop_suffix()[j as int]);
                return false;
            }
            j += 1;
        }
        assert(shop@.subrange(n - 14, n as int) =~= shop_suffix());
        true
    }
}

} // verus!
