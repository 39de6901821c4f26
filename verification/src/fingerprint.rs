//! Working-copy names: filesystem-safe cache keys derived from tree
//! references.
//!
//! A commit's tree reference is rendered as a fixed-width hexadecimal string.
//! For a merge of several tree ids the constituents' hex strings are
//! concatenated, each followed by `+` when its zero-based index is even and
//! `-` when it is odd; a concatenation that reaches 255 characters (a
//! filesystem path-component ceiling) is truncated to its first 200
//! characters. The truncation is a documented source of key collisions for
//! very large merges: the derivation is injective only below the ceiling, and
//! deduplication beyond it is best-effort.

use vstd::prelude::*;

verus! {

/// Identifier of a single content-addressed tree.
pub type TreeId = u64;

/// A commit's tree reference: either a single resolved tree, or the ordered
/// sides of an unresolved merge.
#[derive(Debug)]
pub enum MergedTreeId {
    /// A single resolved tree.
    Legacy(TreeId),
    /// An ordered sequence of tree ids standing for unresolved merge sides.
    Merge(Vec<TreeId>),
}

/// The `i`-th hexadecimal digit of `v`, counted from the most significant of
/// the sixteen nibbles.
pub open spec fn nibble_of(v: u64, i: int) -> u64 {
    (v >> (((15 - i) * 4) as u64)) & 0xf
}

/// The character that renders one hexadecimal digit.
pub open spec fn hex_digit(n: u64) -> char {
    if n == 0 {
        '0'
    } else if n == 1 {
        '1'
    } else if n == 2 {
        '2'
    } else if n == 3 {
        '3'
    } else if n == 4 {
        '4'
    } else if n == 5 {
        '5'
    } else if n == 6 {
        '6'
    } else if n == 7 {
        '7'
    } else if n == 8 {
        '8'
    } else if n == 9 {
        '9'
    } else if n == 10 {
        'a'
    } else if n == 11 {
        'b'
    } else if n == 12 {
        'c'
    } else if n == 13 {
        'd'
    } else if n == 14 {
        'e'
    } else {
        'f'
    }
}

/// The fixed-width (sixteen digit) hexadecimal rendering of a tree id.
pub open spec fn hex_of(v: u64) -> Seq<char> {
    Seq::new(16, |i: int| hex_digit(nibble_of(v, i)))
}

/// The suffix appended after the merge side with zero-based index `i`.
pub open spec fn side_suffix(i: int) -> char {
    if i % 2 == 0 {
        '+'
    } else {
        '-'
    }
}

/// The concatenation of every side's hex rendering and parity suffix, before
/// any truncation.
pub open spec fn merge_encoding(ids: Seq<u64>) -> Seq<char>
    decreases ids.len(),
{
    if ids.len() == 0 {
        Seq::empty()
    } else {
        merge_encoding(ids.drop_last()) + hex_of(ids.last()) + seq![
            side_suffix(ids.len() - 1),
        ]
    }
}

/// The working-copy name of a merge: the full encoding, truncated to its
/// first 200 characters once it reaches 255.
pub open spec fn merge_fingerprint(ids: Seq<u64>) -> Seq<char> {
    let full = merge_encoding(ids);
    if full.len() >= 255 {
        full.take(200)
    } else {
        full
    }
}

/// The working-copy name of a tree reference.
pub open spec fn spec_fingerprint(id: MergedTreeId) -> Seq<char> {
    match id {
        MergedTreeId::Legacy(t) => hex_of(t),
        MergedTreeId::Merge(ids) => merge_fingerprint(ids@),
    }
}

/// Every character a fingerprint can hold is ASCII.
pub proof fn lemma_hex_of_ascii(v: u64)
    ensures
        vstd::utf8::is_ascii_chars(hex_of(v)),
{
    assert forall|i: int| 0 <= i < hex_of(v).len() implies '\0' <= #[trigger] hex_of(v)[i]
        <= '\u{7f}' by {
        assert(hex_of(v)[i] == hex_digit(nibble_of(v, i)));
    }
}

/// The full merge encoding is 17 characters (16 digits and one suffix) per
/// side.
pub proof fn lemma_merge_encoding_len(ids: Seq<u64>)
    ensures
        merge_encoding(ids).len() == 17 * ids.len(),
    decreases ids.len(),
{
    if ids.len() > 0 {
        lemma_merge_encoding_len(ids.drop_last());
    }
}

/// Distinct hexadecimal digits render as distinct characters.
pub proof fn lemma_hex_digit_injective(a: u64, b: u64)
    requires
        a < 16,
        b < 16,
        hex_digit(a) == hex_digit(b),
    ensures
        a == b,
{
}

/// The fixed-width hexadecimal rendering is injective: distinct tree ids
/// render as distinct strings.
pub proof fn lemma_hex_of_injective(a: u64, b: u64)
    requires
        hex_of(a) == hex_of(b),
    ensures
        a == b,
{
    assert forall|i: int| 0 <= i < 16 implies nibble_of(a, i) == nibble_of(b, i) by {
        assert(hex_of(a)[i] == hex_digit(nibble_of(a, i)));
        assert(hex_of(b)[i] == hex_digit(nibble_of(b, i)));
        assert(hex_of(a)[i] == hex_of(b)[i]);
        let s_amt: u64 = ((15 - i) * 4) as u64;
        assert((a >> s_amt) & 0xf < 16) by (bit_vector);
        assert((b >> s_amt) & 0xf < 16) by (bit_vector);
        lemma_hex_digit_injective(nibble_of(a, i), nibble_of(b, i));
    }
    assert((a >> 60u64) & 0xf == nibble_of(a, 0) && (b >> 60u64) & 0xf == nibble_of(b, 0));
    assert((a >> 56u64) & 0xf == nibble_of(a, 1) && (b >> 56u64) & 0xf == nibble_of(b, 1));
    assert((a >> 52u64) & 0xf == nibble_of(a, 2) && (b >> 52u64) & 0xf == nibble_of(b, 2));
    assert((a >> 48u64) & 0xf == nibble_of(a, 3) && (b >> 48u64) & 0xf == nibble_of(b, 3));
    assert((a >> 44u64) & 0xf == nibble_of(a, 4) && (b >> 44u64) & 0xf == nibble_of(b, 4));
    assert((a >> 40u64) & 0xf == nibble_of(a, 5) && (b >> 40u64) & 0xf == nibble_of(b, 5));
    assert((a >> 36u64) & 0xf == nibble_of(a, 6) && (b >> 36u64) & 0xf == nibble_of(b, 6));
    assert((a >> 32u64) & 0xf == nibble_of(a, 7) && (b >> 32u64) & 0xf == nibble_of(b, 7));
    assert((a >> 28u64) & 0xf == nibble_of(a, 8) && (b >> 28u64) & 0xf == nibble_of(b, 8));
    assert((a >> 24u64) & 0xf == nibble_of(a, 9) && (b >> 24u64) & 0xf == nibble_of(b, 9));
    assert((a >> 20u64) & 0xf == nibble_of(a, 10) && (b >> 20u64) & 0xf == nibble_of(b, 10));
    assert((a >> 16u64) & 0xf == nibble_of(a, 11) && (b >> 16u64) & 0xf == nibble_of(b, 11));
    assert((a >> 12u64) & 0xf == nibble_of(a, 12) && (b >> 12u64) & 0xf == nibble_of(b, 12));
    assert((a >> 8u64) & 0xf == nibble_of(a, 13) && (b >> 8u64) & 0xf == nibble_of(b, 13));
    assert((a >> 4u64) & 0xf == nibble_of(a, 14) && (b >> 4u64) & 0xf == nibble_of(b, 14));
    assert((a >> 0u64) & 0xf == nibble_of(a, 15) && (b >> 0u64) & 0xf == nibble_of(b, 15));
    assert(a == b) by (bit_vector)
        requires
            (a >> 60u64) & 0xf == (b >> 60u64) & 0xf,
            (a >> 56u64) & 0xf == (b >> 56u64) & 0xf,
            (a >> 52u64) & 0xf == (b >> 52u64) & 0xf,
            (a >> 48u64) & 0xf == (b >> 48u64) & 0xf,
            (a >> 44u64) & 0xf == (b >> 44u64) & 0xf,
            (a >> 40u64) & 0xf == (b >> 40u64) & 0xf,
            (a >> 36u64) & 0xf == (b >> 36u64) & 0xf,
            (a >> 32u64) & 0xf == (b >> 32u64) & 0xf,
            (a >> 28u64) & 0xf == (b >> 28u64) & 0xf,
            (a >> 24u64) & 0xf == (b >> 24u64) & 0xf,
            (a >> 20u64) & 0xf == (b >> 20u64) & 0xf,
            (a >> 16u64) & 0xf == (b >> 16u64) & 0xf,
            (a >> 12u64) & 0xf == (b >> 12u64) & 0xf,
            (a >> 8u64) & 0xf == (b >> 8u64) & 0xf,
            (a >> 4u64) & 0xf == (b >> 4u64) & 0xf,
            (a >> 0u64) & 0xf == (b >> 0u64) & 0xf,
    ;
}

/// The derivation is deterministic: equal tree references have equal
/// working-copy names, so repeated derivations for one reference always
/// return the same string.
pub proof fn lemma_fingerprint_deterministic(a: MergedTreeId, b: MergedTreeId)
    requires
        a == b,
    ensures
        spec_fingerprint(a) == spec_fingerprint(b),
{
}

/// Distinct single (non-merge) tree ids always have distinct working-copy
/// names.
pub proof fn lemma_legacy_fingerprints_differ(a: TreeId, b: TreeId)
    requires
        a != b,
    ensures
        spec_fingerprint(MergedTreeId::Legacy(a)) != spec_fingerprint(MergedTreeId::Legacy(b)),
{
    if spec_fingerprint(MergedTreeId::Legacy(a)) == spec_fingerprint(MergedTreeId::Legacy(b)) {
        lemma_hex_of_injective(a, b);
    }
}

/// A merge whose concatenated encoding stays below the 255-character ceiling
/// keeps that concatenation as its working-copy name, with no truncation.
pub proof fn lemma_short_merge_fingerprint_untruncated(ids: Seq<u64>)
    requires
        merge_encoding(ids).len() < 255,
    ensures
        merge_fingerprint(ids) == merge_encoding(ids),
{
}

/// One rendered hexadecimal digit.
fn hex_digit_str(n: u64) -> (r: &'static str)
    requires
        n < 16,
    ensures
        r@ =~= seq![hex_digit(n)],
{
    match n {
        0 => {
            proof {
                reveal_strlit("0");
            }
            "0"
        },
        1 => {
            proof {
                reveal_strlit("1");
            }
            "1"
        },
        2 => {
            proof {
                reveal_strlit("2");
            }
            "2"
        },
        3 => {
            proof {
                reveal_strlit("3");
            }
            "3"
        },
        4 => {
            proof {
                reveal_strlit("4");
            }
            "4"
        },
        5 => {
            proof {
                reveal_strlit("5");
            }
            "5"
        },
        6 => {
            proof {
                reveal_strlit("6");
            }
            "6"
        },
        7 => {
            proof {
                reveal_strlit("7");
            }
            "7"
        },
        8 => {
            proof {
                reveal_strlit("8");
            }
            "8"
        },
        9 => {
            proof {
                reveal_strlit("9");
            }
            "9"
        },
        10 => {
            proof {
                reveal_strlit("a");
            }
            "a"
        },
        11 => {
            proof {
                reveal_strlit("b");
            }
            "b"
        },
        12 => {
            proof {
                reveal_strlit("c");
            }
            "c"
        },
        13 => {
            proof {
                reveal_strlit("d");
            }
            "d"
        },
        14 => {
            proof {
                reveal_strlit("e");
            }
            "e"
        },
        _ => {
            proof {
                reveal_strlit("f");
            }
            "f"
        },
    }
}

/// Renders a tree id as its fixed-width hexadecimal string.
pub fn hex_string(v: u64) -> (r: String)
    ensures
        r@ == hex_of(v),
{
    let mut s = String::new();
    let mut i: usize = 0;
    while i < 16
        invariant
            i <= 16,
            s@ =~= hex_of(v).take(i as int),
        decreases 16 - i,
    {
        let shift: u64 = ((15 - i) as u64) * 4;
        let n: u64 = (v >> shift) & 0xf;
        proof {
            assert((v >> shift) & 0xf < 16) by (bit_vector);
            assert(n == nibble_of(v, i as int));
        }
        let d = hex_digit_str(n);
        s.append(d);
        proof {
            assert(hex_of(v).take(i + 1) =~= hex_of(v).take(i as int) + seq![
                hex_digit(nibble_of(v, i as int)),
            ]);
        }
        i = i + 1;
    }
    proof {
        assert(hex_of(v).take(16) =~= hex_of(v));
    }
    s
}

/// Derives the working-copy name of a tree reference.
///
/// The derivation is deterministic: it is a function of the tree reference
/// alone, so repeated calls on equal references yield identical strings.
pub fn to_fingerprint(id: &MergedTreeId) -> (r: String)
    ensures
        r@ == spec_fingerprint(*id),
{
    match id {
        MergedTreeId::Legacy(t) => {
            let r = hex_string(*t);
            proof {
                assert(*id is Legacy);
                assert(spec_fingerprint(*id) == hex_of(*t));
            }
            r
        },
        MergedTreeId::Merge(ids) => {
            let mut s = String::new();
            let mut k: usize = 0;
            while k < ids.len()
                invariant
                    k <= ids@.len(),
                    s@ =~= merge_encoding(ids@.take(k as int)),
                    s@.len() == 17 * k,
                    vstd::utf8::is_ascii_chars(s@),
                decreases ids@.len() - k,
            {
                let ghost s0 = s@;
                let h = hex_string(ids[k]);
                s.append(h.as_str());
                if k % 2 == 0 {
                    proof {
                        reveal_strlit("+");
                    }
                    s.append("+");
                } else {
                    proof {
                        reveal_strlit("-");
                    }
                    s.append("-");
                }
                proof {
                    let pre = ids@.take(k as int);
                    let cur = ids@.take(k + 1);
                    assert(s@ =~= s0 + hex_of(ids@[k as int]) + seq![side_suffix(k as int)]);
                    lemma_hex_of_ascii(ids@[k as int]);
                    assert forall|j: int| 0 <= j < s@.len() implies '\0' <= #[trigger] s@[j]
                        <= '\u{7f}' by {
                        if j < s0.len() {
                            assert(s@[j] == s0[j]);
                        } else if j < s0.len() + 16 {
                            assert(s@[j] == hex_of(ids@[k as int])[j - s0.len()]);
                        } else {
                            assert(s@[j] == side_suffix(k as int));
                        }
                    }
                    assert(cur.drop_last() =~= pre);
                    assert(cur.last() == ids@[k as int]);
                    assert(s@ =~= merge_encoding(cur));
                }
                k = k + 1;
            }
            proof {
                assert(ids@.take(ids@.len() as int) =~= ids@);
            }
            proof {
                assert(*id is Merge);
                assert(spec_fingerprint(*id) == merge_fingerprint(ids@));
            }
            if ids.len() >= 15 {
                let st = s.as_str();
                let t = st.substring_ascii(0, 200);
                let r = t.to_owned();
                proof {
                    assert(r@ =~= merge_fingerprint(ids@));
                }
                r
            } else {
                proof {
                    assert(s@ =~= merge_fingerprint(ids@));
                }
                s
            }
        },
    }
}

} // verus!
