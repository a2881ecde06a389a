//! Rewrite rules put together nothing but parts of what they apply to.

use crate::ir::clear::{
    clear, lemma_any_clear, lemma_bit_clear, lemma_factors_clear, lemma_live_clear, lemma_parts,
    lemma_shared_clear, lemma_terms_clear, sorted, term_clear, term_clear_opt,
};
use crate::ir::expr::{Node, Ref};
use crate::ir::rules::{
    add_absorbed_rule, add_absorbed_side, add_by_factors_rule, add_disjoint_rule, add_nested_rule,
    add_of_parts_rule, add_or_remainder_rule, add_or_remainder_side, add_rule, add_trivial_rule,
    and_absorb_rule, and_against_rule, and_bit_rule, and_drop_arm_rule, and_drop_terms_rule,
    and_flip_back_rule, and_known_one_rule, and_known_ones_rule, and_known_rule, and_nested_rule,
    and_or_not_rule, and_or_not_side, and_rule, and_trivial_rule, and_xor_rule, and_xor_side,
    bin_rule, bit_term, factors, fitted, live_terms, masked_by, or_absorb_rule, or_and_not_rule,
    or_and_not_side, or_buried_rule, or_buried_side, or_factors_rule, or_known_rule,
    or_nested_rule, or_restored_rule, or_restored_side, or_rule, or_shared_rule, or_shared_side,
    or_structural_rule, or_terms, or_trivial_rule, or_xor_rule, sub_both_masked_rule,
    sub_cancel_rule, sub_const_rule, sub_masked_rule, sub_of_parts_rule, sub_rule,
    sub_trivial_rule, sub_twice_rule, sub_wrapped_rule, sub_wrapped_side, xor_and_rule,
    xor_and_side, xor_cancel_rule, xor_nested_rule, xor_of_parts_rule, xor_of_union_rule,
    xor_or_rule, xor_or_side, xor_rule, xor_shared_rule, xor_shared_side, xor_structural_rule,
    xor_trivial_rule,
};
use crate::ir::value::{BinOp, Width};
use vstd::prelude::*;

verus! {

proof fn clear_add_trivial_rule(ns: Seq<Node>, ks: Set<usize>)
    requires
        sorted(ns, ks),
    ensures
        forall|a: Ref, b: Ref, width: Width|
            clear(ns, a, ks) && clear(ns, b, ks) ==> term_clear_opt(
                ns,
                #[trigger] add_trivial_rule(ns, a, b, width),
                ks,
            ),
{
    lemma_parts(ns, ks);
    reveal(add_trivial_rule);
    reveal_with_fuel(term_clear, 5);
    assert forall|a: Ref, b: Ref, width: Width|
        clear(ns, a, ks) && clear(ns, b, ks) implies term_clear_opt(
        ns,
        #[trigger] add_trivial_rule(ns, a, b, width),
        ks,
    ) by {
    }
}

proof fn clear_add_disjoint_rule(ns: Seq<Node>, ks: Set<usize>)
    requires
        sorted(ns, ks),
    ensures
        forall|a: Ref, b: Ref, width: Width|
            clear(ns, a, ks) && clear(ns, b, ks) ==> term_clear_opt(
                ns,
                #[trigger] add_disjoint_rule(ns, a, b, width),
                ks,
            ),
{
    lemma_parts(ns, ks);
    reveal(add_disjoint_rule);
    reveal_with_fuel(term_clear, 5);
    assert forall|a: Ref, b: Ref, width: Width|
        clear(ns, a, ks) && clear(ns, b, ks) implies term_clear_opt(
        ns,
        #[trigger] add_disjoint_rule(ns, a, b, width),
        ks,
    ) by {
    }
}

proof fn clear_add_of_parts_rule(ns: Seq<Node>, ks: Set<usize>)
    requires
        sorted(ns, ks),
    ensures
        forall|a: Ref, b: Ref|
            clear(ns, a, ks) && clear(ns, b, ks) ==> term_clear_opt(
                ns,
                #[trigger] add_of_parts_rule(ns, a, b),
                ks,
            ),
{
    lemma_parts(ns, ks);
    reveal(add_of_parts_rule);
    reveal_with_fuel(term_clear, 5);
    assert forall|a: Ref, b: Ref| clear(ns, a, ks) && clear(ns, b, ks) implies term_clear_opt(
        ns,
        #[trigger] add_of_parts_rule(ns, a, b),
        ks,
    ) by {
    }
}

proof fn clear_add_or_remainder_side(ns: Seq<Node>, ks: Set<usize>)
    requires
        sorted(ns, ks),
    ensures
        forall|q: Ref, or_side: Ref, a_side: Ref|
            clear(ns, q, ks) && clear(ns, or_side, ks) && clear(ns, a_side, ks) ==> term_clear_opt(
                ns,
                #[trigger] add_or_remainder_side(ns, q, or_side, a_side),
                ks,
            ),
{
    lemma_parts(ns, ks);
    reveal(add_or_remainder_side);
    reveal_with_fuel(term_clear, 5);
    assert forall|q: Ref, or_side: Ref, a_side: Ref|
        clear(ns, q, ks) && clear(ns, or_side, ks) && clear(ns, a_side, ks) implies term_clear_opt(
        ns,
        #[trigger] add_or_remainder_side(ns, q, or_side, a_side),
        ks,
    ) by {
    }
}

proof fn clear_add_or_remainder_rule(ns: Seq<Node>, ks: Set<usize>)
    requires
        sorted(ns, ks),
    ensures
        forall|p: Ref, q: Ref|
            clear(ns, p, ks) && clear(ns, q, ks) ==> term_clear_opt(
                ns,
                #[trigger] add_or_remainder_rule(ns, p, q),
                ks,
            ),
{
    lemma_parts(ns, ks);
    clear_add_or_remainder_side(ns, ks);
    reveal(add_or_remainder_rule);
    reveal_with_fuel(term_clear, 5);
    assert forall|p: Ref, q: Ref| clear(ns, p, ks) && clear(ns, q, ks) implies term_clear_opt(
        ns,
        #[trigger] add_or_remainder_rule(ns, p, q),
        ks,
    ) by {
    }
}

proof fn clear_add_absorbed_side(ns: Seq<Node>, ks: Set<usize>)
    requires
        sorted(ns, ks),
    ensures
        forall|q: Ref, lhs: Ref, rhs: Ref|
            clear(ns, q, ks) && clear(ns, lhs, ks) && clear(ns, rhs, ks) ==> term_clear_opt(
                ns,
                #[trigger] add_absorbed_side(ns, q, lhs, rhs),
                ks,
            ),
{
    lemma_parts(ns, ks);
    reveal(add_absorbed_side);
    reveal_with_fuel(term_clear, 5);
    assert forall|q: Ref, lhs: Ref, rhs: Ref|
        clear(ns, q, ks) && clear(ns, lhs, ks) && clear(ns, rhs, ks) implies term_clear_opt(
        ns,
        #[trigger] add_absorbed_side(ns, q, lhs, rhs),
        ks,
    ) by {
    }
}

proof fn clear_add_absorbed_rule(ns: Seq<Node>, ks: Set<usize>)
    requires
        sorted(ns, ks),
    ensures
        forall|p: Ref, q: Ref|
            clear(ns, p, ks) && clear(ns, q, ks) ==> term_clear_opt(
                ns,
                #[trigger] add_absorbed_rule(ns, p, q),
                ks,
            ),
{
    lemma_parts(ns, ks);
    clear_add_absorbed_side(ns, ks);
    reveal(add_absorbed_rule);
    reveal_with_fuel(term_clear, 5);
    assert forall|p: Ref, q: Ref| clear(ns, p, ks) && clear(ns, q, ks) implies term_clear_opt(
        ns,
        #[trigger] add_absorbed_rule(ns, p, q),
        ks,
    ) by {
    }
}

proof fn clear_add_by_factors_rule(ns: Seq<Node>, ks: Set<usize>)
    requires
        sorted(ns, ks),
    ensures
        forall|a: Ref, b: Ref|
            clear(ns, a, ks) && clear(ns, b, ks) ==> term_clear_opt(
                ns,
                #[trigger] add_by_factors_rule(ns, a, b),
                ks,
            ),
{
    lemma_parts(ns, ks);
    reveal(add_by_factors_rule);
    reveal_with_fuel(term_clear, 5);
    assert forall|a: Ref, b: Ref| clear(ns, a, ks) && clear(ns, b, ks) implies term_clear_opt(
        ns,
        #[trigger] add_by_factors_rule(ns, a, b),
        ks,
    ) by {
    }
}

proof fn clear_add_nested_rule(ns: Seq<Node>, ks: Set<usize>)
    requires
        sorted(ns, ks),
    ensures
        forall|a: Ref, b: Ref, width: Width|
            clear(ns, a, ks) && clear(ns, b, ks) ==> term_clear_opt(
                ns,
                #[trigger] add_nested_rule(ns, a, b, width),
                ks,
            ),
{
    lemma_parts(ns, ks);
    reveal(add_nested_rule);
    reveal_with_fuel(term_clear, 5);
    assert forall|a: Ref, b: Ref, width: Width|
        clear(ns, a, ks) && clear(ns, b, ks) implies term_clear_opt(
        ns,
        #[trigger] add_nested_rule(ns, a, b, width),
        ks,
    ) by {
    }
}

proof fn clear_add_rule(ns: Seq<Node>, ks: Set<usize>)
    requires
        sorted(ns, ks),
    ensures
        forall|a: Ref, b: Ref, width: Width|
            clear(ns, a, ks) && clear(ns, b, ks) ==> term_clear_opt(
                ns,
                #[trigger] add_rule(ns, a, b, width),
                ks,
            ),
{
    lemma_parts(ns, ks);
    clear_add_trivial_rule(ns, ks);
    clear_add_disjoint_rule(ns, ks);
    clear_add_of_parts_rule(ns, ks);
    clear_add_or_remainder_rule(ns, ks);
    clear_add_absorbed_rule(ns, ks);
    clear_add_by_factors_rule(ns, ks);
    clear_add_nested_rule(ns, ks);
    reveal(add_rule);
    reveal_with_fuel(term_clear, 5);
    assert forall|a: Ref, b: Ref, width: Width|
        clear(ns, a, ks) && clear(ns, b, ks) implies term_clear_opt(
        ns,
        #[trigger] add_rule(ns, a, b, width),
        ks,
    ) by {
    }
}

proof fn clear_sub_trivial_rule(ns: Seq<Node>, ks: Set<usize>)
    requires
        sorted(ns, ks),
    ensures
        forall|a: Ref, b: Ref, width: Width|
            clear(ns, a, ks) && clear(ns, b, ks) ==> term_clear_opt(
                ns,
                #[trigger] sub_trivial_rule(ns, a, b, width),
                ks,
            ),
{
    lemma_parts(ns, ks);
    reveal(sub_trivial_rule);
    reveal_with_fuel(term_clear, 5);
    assert forall|a: Ref, b: Ref, width: Width|
        clear(ns, a, ks) && clear(ns, b, ks) implies term_clear_opt(
        ns,
        #[trigger] sub_trivial_rule(ns, a, b, width),
        ks,
    ) by {
    }
}

proof fn clear_sub_of_parts_rule(ns: Seq<Node>, ks: Set<usize>)
    requires
        sorted(ns, ks),
    ensures
        forall|a: Ref, b: Ref|
            clear(ns, a, ks) && clear(ns, b, ks) ==> term_clear_opt(
                ns,
                #[trigger] sub_of_parts_rule(ns, a, b),
                ks,
            ),
{
    lemma_parts(ns, ks);
    reveal(sub_of_parts_rule);
    reveal_with_fuel(term_clear, 5);
    assert forall|a: Ref, b: Ref| clear(ns, a, ks) && clear(ns, b, ks) implies term_clear_opt(
        ns,
        #[trigger] sub_of_parts_rule(ns, a, b),
        ks,
    ) by {
    }
}

proof fn clear_sub_cancel_rule(ns: Seq<Node>, ks: Set<usize>)
    requires
        sorted(ns, ks),
    ensures
        forall|a: Ref, b: Ref|
            clear(ns, a, ks) && clear(ns, b, ks) ==> term_clear_opt(
                ns,
                #[trigger] sub_cancel_rule(ns, a, b),
                ks,
            ),
{
    lemma_parts(ns, ks);
    reveal(sub_cancel_rule);
    reveal_with_fuel(term_clear, 5);
    assert forall|a: Ref, b: Ref| clear(ns, a, ks) && clear(ns, b, ks) implies term_clear_opt(
        ns,
        #[trigger] sub_cancel_rule(ns, a, b),
        ks,
    ) by {
    }
}

proof fn clear_sub_masked_rule(ns: Seq<Node>, ks: Set<usize>)
    requires
        sorted(ns, ks),
    ensures
        forall|a: Ref, same: Ref, other: Ref|
            clear(ns, a, ks) && clear(ns, same, ks) && clear(ns, other, ks) ==> term_clear_opt(
                ns,
                #[trigger] sub_masked_rule(ns, a, same, other),
                ks,
            ),
{
    lemma_parts(ns, ks);
    reveal(sub_masked_rule);
    reveal_with_fuel(term_clear, 5);
    assert forall|a: Ref, same: Ref, other: Ref|
        clear(ns, a, ks) && clear(ns, same, ks) && clear(ns, other, ks) implies term_clear_opt(
        ns,
        #[trigger] sub_masked_rule(ns, a, same, other),
        ks,
    ) by {
    }
}

proof fn clear_sub_twice_rule(ns: Seq<Node>, ks: Set<usize>)
    requires
        sorted(ns, ks),
    ensures
        forall|a: Ref, b: Ref|
            clear(ns, a, ks) && clear(ns, b, ks) ==> term_clear_opt(
                ns,
                #[trigger] sub_twice_rule(ns, a, b),
                ks,
            ),
{
    lemma_parts(ns, ks);
    reveal(sub_twice_rule);
    reveal_with_fuel(term_clear, 5);
    assert forall|a: Ref, b: Ref| clear(ns, a, ks) && clear(ns, b, ks) implies term_clear_opt(
        ns,
        #[trigger] sub_twice_rule(ns, a, b),
        ks,
    ) by {
    }
}

proof fn clear_masked_by(ns: Seq<Node>, ks: Set<usize>)
    requires
        sorted(ns, ks),
    ensures
        forall|r: Ref, a: Ref|
            clear(ns, r, ks) && clear(ns, a, ks) ==> term_clear_opt(
                ns,
                #[trigger] masked_by(ns, r, a),
                ks,
            ),
{
    lemma_parts(ns, ks);
    reveal(masked_by);
    reveal_with_fuel(term_clear, 5);
    assert forall|r: Ref, a: Ref| clear(ns, r, ks) && clear(ns, a, ks) implies term_clear_opt(
        ns,
        #[trigger] masked_by(ns, r, a),
        ks,
    ) by {
    }
}

proof fn clear_sub_wrapped_side(ns: Seq<Node>, ks: Set<usize>)
    requires
        sorted(ns, ks),
    ensures
        forall|a: Ref, inner: Ref, whole: Ref|
            clear(ns, a, ks) && clear(ns, inner, ks) && clear(ns, whole, ks) ==> term_clear_opt(
                ns,
                #[trigger] sub_wrapped_side(ns, a, inner, whole),
                ks,
            ),
{
    lemma_parts(ns, ks);
    clear_masked_by(ns, ks);
    reveal(sub_wrapped_side);
    reveal_with_fuel(term_clear, 5);
    assert forall|a: Ref, inner: Ref, whole: Ref|
        clear(ns, a, ks) && clear(ns, inner, ks) && clear(ns, whole, ks) implies term_clear_opt(
        ns,
        #[trigger] sub_wrapped_side(ns, a, inner, whole),
        ks,
    ) by {
    }
}

proof fn clear_sub_wrapped_rule(ns: Seq<Node>, ks: Set<usize>)
    requires
        sorted(ns, ks),
    ensures
        forall|a: Ref, b: Ref|
            clear(ns, a, ks) && clear(ns, b, ks) ==> term_clear_opt(
                ns,
                #[trigger] sub_wrapped_rule(ns, a, b),
                ks,
            ),
{
    lemma_parts(ns, ks);
    clear_sub_wrapped_side(ns, ks);
    reveal(sub_wrapped_rule);
    reveal_with_fuel(term_clear, 5);
    assert forall|a: Ref, b: Ref| clear(ns, a, ks) && clear(ns, b, ks) implies term_clear_opt(
        ns,
        #[trigger] sub_wrapped_rule(ns, a, b),
        ks,
    ) by {
    }
}

proof fn clear_sub_const_rule(ns: Seq<Node>, ks: Set<usize>)
    requires
        sorted(ns, ks),
    ensures
        forall|a: Ref, b: Ref, width: Width|
            clear(ns, a, ks) && clear(ns, b, ks) ==> term_clear_opt(
                ns,
                #[trigger] sub_const_rule(ns, a, b, width),
                ks,
            ),
{
    lemma_parts(ns, ks);
    reveal(sub_const_rule);
    reveal_with_fuel(term_clear, 5);
    assert forall|a: Ref, b: Ref, width: Width|
        clear(ns, a, ks) && clear(ns, b, ks) implies term_clear_opt(
        ns,
        #[trigger] sub_const_rule(ns, a, b, width),
        ks,
    ) by {
    }
}

proof fn clear_sub_both_masked_rule(ns: Seq<Node>, ks: Set<usize>)
    requires
        sorted(ns, ks),
    ensures
        forall|a: Ref, b: Ref|
            clear(ns, a, ks) && clear(ns, b, ks) ==> term_clear_opt(
                ns,
                #[trigger] sub_both_masked_rule(ns, a, b),
                ks,
            ),
{
    lemma_parts(ns, ks);
    clear_sub_masked_rule(ns, ks);
    reveal(sub_both_masked_rule);
    reveal_with_fuel(term_clear, 5);
    assert forall|a: Ref, b: Ref| clear(ns, a, ks) && clear(ns, b, ks) implies term_clear_opt(
        ns,
        #[trigger] sub_both_masked_rule(ns, a, b),
        ks,
    ) by {
    }
}

proof fn clear_sub_rule(ns: Seq<Node>, ks: Set<usize>)
    requires
        sorted(ns, ks),
    ensures
        forall|a: Ref, b: Ref, width: Width|
            clear(ns, a, ks) && clear(ns, b, ks) ==> term_clear_opt(
                ns,
                #[trigger] sub_rule(ns, a, b, width),
                ks,
            ),
{
    lemma_parts(ns, ks);
    clear_sub_trivial_rule(ns, ks);
    clear_sub_of_parts_rule(ns, ks);
    clear_sub_cancel_rule(ns, ks);
    clear_sub_twice_rule(ns, ks);
    clear_sub_wrapped_rule(ns, ks);
    clear_sub_const_rule(ns, ks);
    clear_sub_both_masked_rule(ns, ks);
    reveal(sub_rule);
    reveal_with_fuel(term_clear, 5);
    assert forall|a: Ref, b: Ref, width: Width|
        clear(ns, a, ks) && clear(ns, b, ks) implies term_clear_opt(
        ns,
        #[trigger] sub_rule(ns, a, b, width),
        ks,
    ) by {
    }
}

proof fn clear_and_bit_rule(ns: Seq<Node>, ks: Set<usize>)
    requires
        sorted(ns, ks),
    ensures
        forall|a: Ref, b: Ref, width: Width|
            clear(ns, a, ks) && clear(ns, b, ks) ==> term_clear_opt(
                ns,
                #[trigger] and_bit_rule(ns, a, b, width),
                ks,
            ),
{
    lemma_parts(ns, ks);
    reveal(and_bit_rule);
    reveal(fitted);
    reveal_with_fuel(term_clear, 5);
    assert forall|a: Ref, b: Ref, width: Width|
        clear(ns, a, ks) && clear(ns, b, ks) implies term_clear_opt(
        ns,
        #[trigger] and_bit_rule(ns, a, b, width),
        ks,
    ) by {
        assert forall|x: Ref, k: u64| clear(ns, x, ks) implies term_clear_opt(ns, #[trigger] bit_term(ns, x, k), ks) by {
            lemma_bit_clear(ns, x, k, ks);
        }
    }
}

proof fn clear_and_trivial_rule(ns: Seq<Node>, ks: Set<usize>)
    requires
        sorted(ns, ks),
    ensures
        forall|a: Ref, b: Ref, width: Width|
            clear(ns, a, ks) && clear(ns, b, ks) ==> term_clear_opt(
                ns,
                #[trigger] and_trivial_rule(ns, a, b, width),
                ks,
            ),
{
    lemma_parts(ns, ks);
    reveal(and_trivial_rule);
    reveal_with_fuel(term_clear, 5);
    assert forall|a: Ref, b: Ref, width: Width|
        clear(ns, a, ks) && clear(ns, b, ks) implies term_clear_opt(
        ns,
        #[trigger] and_trivial_rule(ns, a, b, width),
        ks,
    ) by {
    }
}

proof fn clear_and_known_one_rule(ns: Seq<Node>, ks: Set<usize>)
    requires
        sorted(ns, ks),
    ensures
        forall|p: Ref, q: Ref, width: Width|
            clear(ns, p, ks) && clear(ns, q, ks) ==> term_clear_opt(
                ns,
                #[trigger] and_known_one_rule(ns, p, q, width),
                ks,
            ),
{
    lemma_parts(ns, ks);
    reveal(and_known_one_rule);
    reveal_with_fuel(term_clear, 5);
    assert forall|p: Ref, q: Ref, width: Width|
        clear(ns, p, ks) && clear(ns, q, ks) implies term_clear_opt(
        ns,
        #[trigger] and_known_one_rule(ns, p, q, width),
        ks,
    ) by {
    }
}

proof fn clear_and_drop_arm_rule(ns: Seq<Node>, ks: Set<usize>)
    requires
        sorted(ns, ks),
    ensures
        forall|a: Ref, b: Ref, c: u64|
            clear(ns, a, ks) && clear(ns, b, ks) ==> term_clear_opt(
                ns,
                #[trigger] and_drop_arm_rule(ns, a, b, c),
                ks,
            ),
{
    lemma_parts(ns, ks);
    reveal(and_drop_arm_rule);
    reveal_with_fuel(term_clear, 5);
    assert forall|a: Ref, b: Ref, c: u64|
        clear(ns, a, ks) && clear(ns, b, ks) implies term_clear_opt(
        ns,
        #[trigger] and_drop_arm_rule(ns, a, b, c),
        ks,
    ) by {
    }
}

proof fn clear_and_drop_terms_rule(ns: Seq<Node>, ks: Set<usize>)
    requires
        sorted(ns, ks),
    ensures
        forall|a: Ref, b: Ref, c: u64, width: Width|
            clear(ns, a, ks) && clear(ns, b, ks) ==> term_clear_opt(
                ns,
                #[trigger] and_drop_terms_rule(ns, a, b, c, width),
                ks,
            ),
{
    lemma_parts(ns, ks);
    reveal(and_drop_terms_rule);
    reveal_with_fuel(term_clear, 5);
    assert forall|a: Ref, b: Ref, c: u64, width: Width|
        clear(ns, a, ks) && clear(ns, b, ks) implies term_clear_opt(
        ns,
        #[trigger] and_drop_terms_rule(ns, a, b, c, width),
        ks,
    ) by {
        let terms = or_terms(ns, a, 32);
        lemma_terms_clear(ns, a, 32, ks);
        lemma_live_clear(ns, terms, c, terms.len() as int, ks);
        let live = live_terms(ns, terms, c, terms.len() as int);
        if live.len() > 0 {
            lemma_any_clear(ns, live, live.len() as int, ks);
        }
    }
}

proof fn clear_and_flip_back_rule(ns: Seq<Node>, ks: Set<usize>)
    requires
        sorted(ns, ks),
    ensures
        forall|a: Ref, b: Ref, c2: u64|
            clear(ns, a, ks) && clear(ns, b, ks) ==> term_clear_opt(
                ns,
                #[trigger] and_flip_back_rule(ns, a, b, c2),
                ks,
            ),
{
    lemma_parts(ns, ks);
    reveal(and_flip_back_rule);
    reveal_with_fuel(term_clear, 5);
    assert forall|a: Ref, b: Ref, c2: u64|
        clear(ns, a, ks) && clear(ns, b, ks) implies term_clear_opt(
        ns,
        #[trigger] and_flip_back_rule(ns, a, b, c2),
        ks,
    ) by {
    }
}

proof fn clear_and_absorb_rule(ns: Seq<Node>, ks: Set<usize>)
    requires
        sorted(ns, ks),
    ensures
        forall|p: Ref, q: Ref|
            clear(ns, p, ks) && clear(ns, q, ks) ==> term_clear_opt(
                ns,
                #[trigger] and_absorb_rule(ns, p, q),
                ks,
            ),
{
    lemma_parts(ns, ks);
    reveal(and_absorb_rule);
    reveal_with_fuel(term_clear, 5);
    assert forall|p: Ref, q: Ref| clear(ns, p, ks) && clear(ns, q, ks) implies term_clear_opt(
        ns,
        #[trigger] and_absorb_rule(ns, p, q),
        ks,
    ) by {
    }
}

proof fn clear_and_xor_side(ns: Seq<Node>, ks: Set<usize>)
    requires
        sorted(ns, ks),
    ensures
        forall|p: Ref, same: Ref, other: Ref|
            clear(ns, p, ks) && clear(ns, same, ks) && clear(ns, other, ks) ==> term_clear_opt(
                ns,
                #[trigger] and_xor_side(ns, p, same, other),
                ks,
            ),
{
    lemma_parts(ns, ks);
    reveal(and_xor_side);
    reveal_with_fuel(term_clear, 5);
    assert forall|p: Ref, same: Ref, other: Ref|
        clear(ns, p, ks) && clear(ns, same, ks) && clear(ns, other, ks) implies term_clear_opt(
        ns,
        #[trigger] and_xor_side(ns, p, same, other),
        ks,
    ) by {
    }
}

proof fn clear_and_xor_rule(ns: Seq<Node>, ks: Set<usize>)
    requires
        sorted(ns, ks),
    ensures
        forall|p: Ref, q: Ref|
            clear(ns, p, ks) && clear(ns, q, ks) ==> term_clear_opt(
                ns,
                #[trigger] and_xor_rule(ns, p, q),
                ks,
            ),
{
    lemma_parts(ns, ks);
    clear_and_xor_side(ns, ks);
    reveal(and_xor_rule);
    reveal_with_fuel(term_clear, 5);
    assert forall|p: Ref, q: Ref| clear(ns, p, ks) && clear(ns, q, ks) implies term_clear_opt(
        ns,
        #[trigger] and_xor_rule(ns, p, q),
        ks,
    ) by {
    }
}

proof fn clear_and_or_not_side(ns: Seq<Node>, ks: Set<usize>)
    requires
        sorted(ns, ks),
    ensures
        forall|p: Ref, neg: Ref, other: Ref|
            clear(ns, p, ks) && clear(ns, neg, ks) && clear(ns, other, ks) ==> term_clear_opt(
                ns,
                #[trigger] and_or_not_side(ns, p, neg, other),
                ks,
            ),
{
    lemma_parts(ns, ks);
    reveal(and_or_not_side);
    reveal_with_fuel(term_clear, 5);
    assert forall|p: Ref, neg: Ref, other: Ref|
        clear(ns, p, ks) && clear(ns, neg, ks) && clear(ns, other, ks) implies term_clear_opt(
        ns,
        #[trigger] and_or_not_side(ns, p, neg, other),
        ks,
    ) by {
    }
}

proof fn clear_and_or_not_rule(ns: Seq<Node>, ks: Set<usize>)
    requires
        sorted(ns, ks),
    ensures
        forall|p: Ref, q: Ref|
            clear(ns, p, ks) && clear(ns, q, ks) ==> term_clear_opt(
                ns,
                #[trigger] and_or_not_rule(ns, p, q),
                ks,
            ),
{
    lemma_parts(ns, ks);
    clear_and_or_not_side(ns, ks);
    reveal(and_or_not_rule);
    reveal_with_fuel(term_clear, 5);
    assert forall|p: Ref, q: Ref| clear(ns, p, ks) && clear(ns, q, ks) implies term_clear_opt(
        ns,
        #[trigger] and_or_not_rule(ns, p, q),
        ks,
    ) by {
    }
}

proof fn clear_and_nested_rule(ns: Seq<Node>, ks: Set<usize>)
    requires
        sorted(ns, ks),
    ensures
        forall|a: Ref, c2: u64, width: Width|
            clear(ns, a, ks) ==> term_clear_opt(
                ns,
                #[trigger] and_nested_rule(ns, a, c2, width),
                ks,
            ),
{
    lemma_parts(ns, ks);
    reveal(and_nested_rule);
    reveal_with_fuel(term_clear, 5);
    assert forall|a: Ref, c2: u64, width: Width| clear(ns, a, ks) implies term_clear_opt(
        ns,
        #[trigger] and_nested_rule(ns, a, c2, width),
        ks,
    ) by {
    }
}

proof fn clear_and_known_rule(ns: Seq<Node>, ks: Set<usize>)
    requires
        sorted(ns, ks),
    ensures
        forall|a: Ref, c: u64, width: Width|
            clear(ns, a, ks) ==> term_clear_opt(ns, #[trigger] and_known_rule(ns, a, c, width), ks),
{
    lemma_parts(ns, ks);
    reveal(and_known_rule);
    reveal_with_fuel(term_clear, 5);
    assert forall|a: Ref, c: u64, width: Width| clear(ns, a, ks) implies term_clear_opt(
        ns,
        #[trigger] and_known_rule(ns, a, c, width),
        ks,
    ) by {
    }
}

proof fn clear_and_against_rule(ns: Seq<Node>, ks: Set<usize>)
    requires
        sorted(ns, ks),
    ensures
        forall|a: Ref, b: Ref, width: Width|
            clear(ns, a, ks) && clear(ns, b, ks) ==> term_clear_opt(
                ns,
                #[trigger] and_against_rule(ns, a, b, width),
                ks,
            ),
{
    lemma_parts(ns, ks);
    clear_and_flip_back_rule(ns, ks);
    clear_and_absorb_rule(ns, ks);
    clear_and_xor_rule(ns, ks);
    clear_and_or_not_rule(ns, ks);
    reveal(and_against_rule);
    reveal_with_fuel(term_clear, 5);
    assert forall|a: Ref, b: Ref, width: Width|
        clear(ns, a, ks) && clear(ns, b, ks) implies term_clear_opt(
        ns,
        #[trigger] and_against_rule(ns, a, b, width),
        ks,
    ) by {
    }
}

proof fn clear_and_known_ones_rule(ns: Seq<Node>, ks: Set<usize>)
    requires
        sorted(ns, ks),
    ensures
        forall|a: Ref, b: Ref, width: Width|
            clear(ns, a, ks) && clear(ns, b, ks) ==> term_clear_opt(
                ns,
                #[trigger] and_known_ones_rule(ns, a, b, width),
                ks,
            ),
{
    lemma_parts(ns, ks);
    clear_and_known_one_rule(ns, ks);
    reveal(and_known_ones_rule);
    reveal_with_fuel(term_clear, 5);
    assert forall|a: Ref, b: Ref, width: Width|
        clear(ns, a, ks) && clear(ns, b, ks) implies term_clear_opt(
        ns,
        #[trigger] and_known_ones_rule(ns, a, b, width),
        ks,
    ) by {
    }
}

proof fn clear_and_rule(ns: Seq<Node>, ks: Set<usize>)
    requires
        sorted(ns, ks),
    ensures
        forall|a: Ref, b: Ref, width: Width|
            clear(ns, a, ks) && clear(ns, b, ks) ==> term_clear_opt(
                ns,
                #[trigger] and_rule(ns, a, b, width),
                ks,
            ),
{
    lemma_parts(ns, ks);
    clear_and_bit_rule(ns, ks);
    clear_and_trivial_rule(ns, ks);
    clear_and_drop_arm_rule(ns, ks);
    clear_and_drop_terms_rule(ns, ks);
    clear_and_nested_rule(ns, ks);
    clear_and_known_rule(ns, ks);
    clear_and_against_rule(ns, ks);
    clear_and_known_ones_rule(ns, ks);
    reveal(and_rule);
    reveal_with_fuel(term_clear, 5);
    assert forall|a: Ref, b: Ref, width: Width|
        clear(ns, a, ks) && clear(ns, b, ks) implies term_clear_opt(
        ns,
        #[trigger] and_rule(ns, a, b, width),
        ks,
    ) by {
    }
}

proof fn clear_or_xor_rule(ns: Seq<Node>, ks: Set<usize>)
    requires
        sorted(ns, ks),
    ensures
        forall|p: Ref, q: Ref|
            clear(ns, p, ks) && clear(ns, q, ks) ==> term_clear_opt(
                ns,
                #[trigger] or_xor_rule(ns, p, q),
                ks,
            ),
{
    lemma_parts(ns, ks);
    reveal(or_xor_rule);
    reveal_with_fuel(term_clear, 5);
    assert forall|p: Ref, q: Ref| clear(ns, p, ks) && clear(ns, q, ks) implies term_clear_opt(
        ns,
        #[trigger] or_xor_rule(ns, p, q),
        ks,
    ) by {
    }
}

proof fn clear_or_trivial_rule(ns: Seq<Node>, ks: Set<usize>)
    requires
        sorted(ns, ks),
    ensures
        forall|a: Ref, b: Ref, width: Width|
            clear(ns, a, ks) && clear(ns, b, ks) ==> term_clear_opt(
                ns,
                #[trigger] or_trivial_rule(ns, a, b, width),
                ks,
            ),
{
    lemma_parts(ns, ks);
    reveal(or_trivial_rule);
    reveal_with_fuel(term_clear, 5);
    assert forall|a: Ref, b: Ref, width: Width|
        clear(ns, a, ks) && clear(ns, b, ks) implies term_clear_opt(
        ns,
        #[trigger] or_trivial_rule(ns, a, b, width),
        ks,
    ) by {
    }
}

proof fn clear_or_and_not_side(ns: Seq<Node>, ks: Set<usize>)
    requires
        sorted(ns, ks),
    ensures
        forall|p: Ref, neg: Ref, other: Ref|
            clear(ns, p, ks) && clear(ns, neg, ks) && clear(ns, other, ks) ==> term_clear_opt(
                ns,
                #[trigger] or_and_not_side(ns, p, neg, other),
                ks,
            ),
{
    lemma_parts(ns, ks);
    reveal(or_and_not_side);
    reveal_with_fuel(term_clear, 5);
    assert forall|p: Ref, neg: Ref, other: Ref|
        clear(ns, p, ks) && clear(ns, neg, ks) && clear(ns, other, ks) implies term_clear_opt(
        ns,
        #[trigger] or_and_not_side(ns, p, neg, other),
        ks,
    ) by {
    }
}

proof fn clear_or_and_not_rule(ns: Seq<Node>, ks: Set<usize>)
    requires
        sorted(ns, ks),
    ensures
        forall|p: Ref, q: Ref|
            clear(ns, p, ks) && clear(ns, q, ks) ==> term_clear_opt(
                ns,
                #[trigger] or_and_not_rule(ns, p, q),
                ks,
            ),
{
    lemma_parts(ns, ks);
    clear_or_and_not_side(ns, ks);
    reveal(or_and_not_rule);
    reveal_with_fuel(term_clear, 5);
    assert forall|p: Ref, q: Ref| clear(ns, p, ks) && clear(ns, q, ks) implies term_clear_opt(
        ns,
        #[trigger] or_and_not_rule(ns, p, q),
        ks,
    ) by {
    }
}

proof fn clear_or_absorb_rule(ns: Seq<Node>, ks: Set<usize>)
    requires
        sorted(ns, ks),
    ensures
        forall|p: Ref, q: Ref|
            clear(ns, p, ks) && clear(ns, q, ks) ==> term_clear_opt(
                ns,
                #[trigger] or_absorb_rule(ns, p, q),
                ks,
            ),
{
    lemma_parts(ns, ks);
    reveal(or_absorb_rule);
    reveal_with_fuel(term_clear, 5);
    assert forall|p: Ref, q: Ref| clear(ns, p, ks) && clear(ns, q, ks) implies term_clear_opt(
        ns,
        #[trigger] or_absorb_rule(ns, p, q),
        ks,
    ) by {
    }
}

proof fn clear_or_shared_side(ns: Seq<Node>, ks: Set<usize>)
    requires
        sorted(ns, ks),
    ensures
        forall|shared: Ref, mask_a: Ref, shared_b: Ref, mask_b: Ref, width: Width|
            clear(ns, shared, ks) && clear(ns, mask_a, ks) && clear(ns, shared_b, ks)
                && clear(ns, mask_b, ks) ==> term_clear_opt(
                ns,
                #[trigger] or_shared_side(ns, shared, mask_a, shared_b, mask_b, width),
                ks,
            ),
{
    lemma_parts(ns, ks);
    reveal(or_shared_side);
    reveal_with_fuel(term_clear, 5);
    assert forall|shared: Ref, mask_a: Ref, shared_b: Ref, mask_b: Ref, width: Width|
        clear(ns, shared, ks) && clear(ns, mask_a, ks) && clear(ns, shared_b, ks)
            && clear(ns, mask_b, ks) implies term_clear_opt(
        ns,
        #[trigger] or_shared_side(ns, shared, mask_a, shared_b, mask_b, width),
        ks,
    ) by {
    }
}

proof fn clear_or_shared_rule(ns: Seq<Node>, ks: Set<usize>)
    requires
        sorted(ns, ks),
    ensures
        forall|a: Ref, b: Ref, width: Width|
            clear(ns, a, ks) && clear(ns, b, ks) ==> term_clear_opt(
                ns,
                #[trigger] or_shared_rule(ns, a, b, width),
                ks,
            ),
{
    lemma_parts(ns, ks);
    clear_or_shared_side(ns, ks);
    reveal(or_shared_rule);
    reveal_with_fuel(term_clear, 5);
    assert forall|a: Ref, b: Ref, width: Width|
        clear(ns, a, ks) && clear(ns, b, ks) implies term_clear_opt(
        ns,
        #[trigger] or_shared_rule(ns, a, b, width),
        ks,
    ) by {
    }
}

proof fn clear_or_factors_rule(ns: Seq<Node>, ks: Set<usize>)
    requires
        sorted(ns, ks),
    ensures
        forall|a: Ref, b: Ref, width: Width|
            clear(ns, a, ks) && clear(ns, b, ks) ==> term_clear_opt(
                ns,
                #[trigger] or_factors_rule(ns, a, b, width),
                ks,
            ),
{
    lemma_parts(ns, ks);
    reveal(or_factors_rule);
    reveal_with_fuel(term_clear, 5);
    assert forall|a: Ref, b: Ref, width: Width|
        clear(ns, a, ks) && clear(ns, b, ks) implies term_clear_opt(
        ns,
        #[trigger] or_factors_rule(ns, a, b, width),
        ks,
    ) by {
        lemma_factors_clear(ns, a, false, 6, ks);
        lemma_factors_clear(ns, b, false, 6, ks);
        lemma_shared_clear(ns, factors(ns, a, false, 6).0, factors(ns, b, false, 6).0, width, 0, ks);
    }
}

proof fn clear_or_known_rule(ns: Seq<Node>, ks: Set<usize>)
    requires
        sorted(ns, ks),
    ensures
        forall|p: Ref, q: Ref, width: Width|
            clear(ns, p, ks) && clear(ns, q, ks) ==> term_clear_opt(
                ns,
                #[trigger] or_known_rule(ns, p, q, width),
                ks,
            ),
{
    lemma_parts(ns, ks);
    reveal(or_known_rule);
    reveal_with_fuel(term_clear, 5);
    assert forall|p: Ref, q: Ref, width: Width|
        clear(ns, p, ks) && clear(ns, q, ks) implies term_clear_opt(
        ns,
        #[trigger] or_known_rule(ns, p, q, width),
        ks,
    ) by {
    }
}

proof fn clear_or_nested_rule(ns: Seq<Node>, ks: Set<usize>)
    requires
        sorted(ns, ks),
    ensures
        forall|a: Ref, c2: u64, width: Width|
            clear(ns, a, ks) ==> term_clear_opt(
                ns,
                #[trigger] or_nested_rule(ns, a, c2, width),
                ks,
            ),
{
    lemma_parts(ns, ks);
    reveal(or_nested_rule);
    reveal_with_fuel(term_clear, 5);
    assert forall|a: Ref, c2: u64, width: Width| clear(ns, a, ks) implies term_clear_opt(
        ns,
        #[trigger] or_nested_rule(ns, a, c2, width),
        ks,
    ) by {
    }
}

proof fn clear_or_buried_side(ns: Seq<Node>, ks: Set<usize>)
    requires
        sorted(ns, ks),
    ensures
        forall|p: Ref, cand: Ref, keep: Ref|
            clear(ns, p, ks) && clear(ns, cand, ks) && clear(ns, keep, ks) ==> term_clear_opt(
                ns,
                #[trigger] or_buried_side(ns, p, cand, keep),
                ks,
            ),
{
    lemma_parts(ns, ks);
    reveal(or_buried_side);
    reveal_with_fuel(term_clear, 5);
    assert forall|p: Ref, cand: Ref, keep: Ref|
        clear(ns, p, ks) && clear(ns, cand, ks) && clear(ns, keep, ks) implies term_clear_opt(
        ns,
        #[trigger] or_buried_side(ns, p, cand, keep),
        ks,
    ) by {
    }
}

proof fn clear_or_buried_rule(ns: Seq<Node>, ks: Set<usize>)
    requires
        sorted(ns, ks),
    ensures
        forall|p: Ref, q: Ref|
            clear(ns, p, ks) && clear(ns, q, ks) ==> term_clear_opt(
                ns,
                #[trigger] or_buried_rule(ns, p, q),
                ks,
            ),
{
    lemma_parts(ns, ks);
    clear_or_buried_side(ns, ks);
    reveal(or_buried_rule);
    reveal_with_fuel(term_clear, 5);
    assert forall|p: Ref, q: Ref| clear(ns, p, ks) && clear(ns, q, ks) implies term_clear_opt(
        ns,
        #[trigger] or_buried_rule(ns, p, q),
        ks,
    ) by {
    }
}

proof fn clear_or_restored_side(ns: Seq<Node>, ks: Set<usize>)
    requires
        sorted(ns, ks),
    ensures
        forall|q: Ref, or_side: Ref, other: Ref|
            clear(ns, q, ks) && clear(ns, or_side, ks) && clear(ns, other, ks) ==> term_clear_opt(
                ns,
                #[trigger] or_restored_side(ns, q, or_side, other),
                ks,
            ),
{
    lemma_parts(ns, ks);
    reveal(or_restored_side);
    reveal_with_fuel(term_clear, 5);
    assert forall|q: Ref, or_side: Ref, other: Ref|
        clear(ns, q, ks) && clear(ns, or_side, ks) && clear(ns, other, ks) implies term_clear_opt(
        ns,
        #[trigger] or_restored_side(ns, q, or_side, other),
        ks,
    ) by {
    }
}

proof fn clear_or_restored_rule(ns: Seq<Node>, ks: Set<usize>)
    requires
        sorted(ns, ks),
    ensures
        forall|p: Ref, q: Ref|
            clear(ns, p, ks) && clear(ns, q, ks) ==> term_clear_opt(
                ns,
                #[trigger] or_restored_rule(ns, p, q),
                ks,
            ),
{
    lemma_parts(ns, ks);
    clear_or_restored_side(ns, ks);
    reveal(or_restored_rule);
    reveal_with_fuel(term_clear, 5);
    assert forall|p: Ref, q: Ref| clear(ns, p, ks) && clear(ns, q, ks) implies term_clear_opt(
        ns,
        #[trigger] or_restored_rule(ns, p, q),
        ks,
    ) by {
    }
}

proof fn clear_or_structural_rule(ns: Seq<Node>, ks: Set<usize>)
    requires
        sorted(ns, ks),
    ensures
        forall|a: Ref, b: Ref, width: Width|
            clear(ns, a, ks) && clear(ns, b, ks) ==> term_clear_opt(
                ns,
                #[trigger] or_structural_rule(ns, a, b, width),
                ks,
            ),
{
    lemma_parts(ns, ks);
    clear_or_xor_rule(ns, ks);
    clear_or_trivial_rule(ns, ks);
    clear_or_and_not_rule(ns, ks);
    clear_or_absorb_rule(ns, ks);
    clear_or_shared_rule(ns, ks);
    clear_or_factors_rule(ns, ks);
    reveal(or_structural_rule);
    reveal_with_fuel(term_clear, 5);
    assert forall|a: Ref, b: Ref, width: Width|
        clear(ns, a, ks) && clear(ns, b, ks) implies term_clear_opt(
        ns,
        #[trigger] or_structural_rule(ns, a, b, width),
        ks,
    ) by {
    }
}

proof fn clear_or_rule(ns: Seq<Node>, ks: Set<usize>)
    requires
        sorted(ns, ks),
    ensures
        forall|a: Ref, b: Ref, width: Width|
            clear(ns, a, ks) && clear(ns, b, ks) ==> term_clear_opt(
                ns,
                #[trigger] or_rule(ns, a, b, width),
                ks,
            ),
{
    lemma_parts(ns, ks);
    clear_or_known_rule(ns, ks);
    clear_or_nested_rule(ns, ks);
    clear_or_buried_rule(ns, ks);
    clear_or_restored_rule(ns, ks);
    clear_or_structural_rule(ns, ks);
    reveal(or_rule);
    reveal_with_fuel(term_clear, 5);
    assert forall|a: Ref, b: Ref, width: Width|
        clear(ns, a, ks) && clear(ns, b, ks) implies term_clear_opt(
        ns,
        #[trigger] or_rule(ns, a, b, width),
        ks,
    ) by {
    }
}

proof fn clear_xor_of_parts_rule(ns: Seq<Node>, ks: Set<usize>)
    requires
        sorted(ns, ks),
    ensures
        forall|p: Ref, q: Ref|
            clear(ns, p, ks) && clear(ns, q, ks) ==> term_clear_opt(
                ns,
                #[trigger] xor_of_parts_rule(ns, p, q),
                ks,
            ),
{
    lemma_parts(ns, ks);
    reveal(xor_of_parts_rule);
    reveal_with_fuel(term_clear, 5);
    assert forall|p: Ref, q: Ref| clear(ns, p, ks) && clear(ns, q, ks) implies term_clear_opt(
        ns,
        #[trigger] xor_of_parts_rule(ns, p, q),
        ks,
    ) by {
    }
}

proof fn clear_xor_of_union_rule(ns: Seq<Node>, ks: Set<usize>)
    requires
        sorted(ns, ks),
    ensures
        forall|p: Ref, q: Ref|
            clear(ns, p, ks) && clear(ns, q, ks) ==> term_clear_opt(
                ns,
                #[trigger] xor_of_union_rule(ns, p, q),
                ks,
            ),
{
    lemma_parts(ns, ks);
    reveal(xor_of_union_rule);
    reveal_with_fuel(term_clear, 5);
    assert forall|p: Ref, q: Ref| clear(ns, p, ks) && clear(ns, q, ks) implies term_clear_opt(
        ns,
        #[trigger] xor_of_union_rule(ns, p, q),
        ks,
    ) by {
    }
}

proof fn clear_xor_or_side(ns: Seq<Node>, ks: Set<usize>)
    requires
        sorted(ns, ks),
    ensures
        forall|p: Ref, same: Ref, other: Ref|
            clear(ns, p, ks) && clear(ns, same, ks) && clear(ns, other, ks) ==> term_clear_opt(
                ns,
                #[trigger] xor_or_side(ns, p, same, other),
                ks,
            ),
{
    lemma_parts(ns, ks);
    reveal(xor_or_side);
    reveal_with_fuel(term_clear, 5);
    assert forall|p: Ref, same: Ref, other: Ref|
        clear(ns, p, ks) && clear(ns, same, ks) && clear(ns, other, ks) implies term_clear_opt(
        ns,
        #[trigger] xor_or_side(ns, p, same, other),
        ks,
    ) by {
    }
}

proof fn clear_xor_or_rule(ns: Seq<Node>, ks: Set<usize>)
    requires
        sorted(ns, ks),
    ensures
        forall|p: Ref, q: Ref|
            clear(ns, p, ks) && clear(ns, q, ks) ==> term_clear_opt(
                ns,
                #[trigger] xor_or_rule(ns, p, q),
                ks,
            ),
{
    lemma_parts(ns, ks);
    clear_xor_or_side(ns, ks);
    reveal(xor_or_rule);
    reveal_with_fuel(term_clear, 5);
    assert forall|p: Ref, q: Ref| clear(ns, p, ks) && clear(ns, q, ks) implies term_clear_opt(
        ns,
        #[trigger] xor_or_rule(ns, p, q),
        ks,
    ) by {
    }
}

proof fn clear_xor_shared_side(ns: Seq<Node>, ks: Set<usize>)
    requires
        sorted(ns, ks),
    ensures
        forall|ax: Ref, am: Ref, bx: Ref, bm: Ref|
            clear(ns, ax, ks) && clear(ns, am, ks) && clear(ns, bx, ks)
                && clear(ns, bm, ks) ==> term_clear_opt(
                ns,
                #[trigger] xor_shared_side(ns, ax, am, bx, bm),
                ks,
            ),
{
    lemma_parts(ns, ks);
    reveal(xor_shared_side);
    reveal_with_fuel(term_clear, 5);
    assert forall|ax: Ref, am: Ref, bx: Ref, bm: Ref|
        clear(ns, ax, ks) && clear(ns, am, ks) && clear(ns, bx, ks)
            && clear(ns, bm, ks) implies term_clear_opt(
        ns,
        #[trigger] xor_shared_side(ns, ax, am, bx, bm),
        ks,
    ) by {
    }
}

proof fn clear_xor_shared_rule(ns: Seq<Node>, ks: Set<usize>)
    requires
        sorted(ns, ks),
    ensures
        forall|a: Ref, b: Ref|
            clear(ns, a, ks) && clear(ns, b, ks) ==> term_clear_opt(
                ns,
                #[trigger] xor_shared_rule(ns, a, b),
                ks,
            ),
{
    lemma_parts(ns, ks);
    clear_xor_shared_side(ns, ks);
    reveal(xor_shared_rule);
    reveal_with_fuel(term_clear, 5);
    assert forall|a: Ref, b: Ref| clear(ns, a, ks) && clear(ns, b, ks) implies term_clear_opt(
        ns,
        #[trigger] xor_shared_rule(ns, a, b),
        ks,
    ) by {
    }
}

proof fn clear_xor_trivial_rule(ns: Seq<Node>, ks: Set<usize>)
    requires
        sorted(ns, ks),
    ensures
        forall|a: Ref, b: Ref, width: Width|
            clear(ns, a, ks) && clear(ns, b, ks) ==> term_clear_opt(
                ns,
                #[trigger] xor_trivial_rule(ns, a, b, width),
                ks,
            ),
{
    lemma_parts(ns, ks);
    reveal(xor_trivial_rule);
    reveal_with_fuel(term_clear, 5);
    assert forall|a: Ref, b: Ref, width: Width|
        clear(ns, a, ks) && clear(ns, b, ks) implies term_clear_opt(
        ns,
        #[trigger] xor_trivial_rule(ns, a, b, width),
        ks,
    ) by {
    }
}

proof fn clear_xor_nested_rule(ns: Seq<Node>, ks: Set<usize>)
    requires
        sorted(ns, ks),
    ensures
        forall|a: Ref, c2: u64, width: Width|
            clear(ns, a, ks) ==> term_clear_opt(
                ns,
                #[trigger] xor_nested_rule(ns, a, c2, width),
                ks,
            ),
{
    lemma_parts(ns, ks);
    reveal(xor_nested_rule);
    reveal_with_fuel(term_clear, 5);
    assert forall|a: Ref, c2: u64, width: Width| clear(ns, a, ks) implies term_clear_opt(
        ns,
        #[trigger] xor_nested_rule(ns, a, c2, width),
        ks,
    ) by {
    }
}

proof fn clear_xor_and_side(ns: Seq<Node>, ks: Set<usize>)
    requires
        sorted(ns, ks),
    ensures
        forall|q: Ref, same: Ref, other: Ref|
            clear(ns, q, ks) && clear(ns, same, ks) && clear(ns, other, ks) ==> term_clear_opt(
                ns,
                #[trigger] xor_and_side(ns, q, same, other),
                ks,
            ),
{
    lemma_parts(ns, ks);
    reveal(xor_and_side);
    reveal_with_fuel(term_clear, 5);
    assert forall|q: Ref, same: Ref, other: Ref|
        clear(ns, q, ks) && clear(ns, same, ks) && clear(ns, other, ks) implies term_clear_opt(
        ns,
        #[trigger] xor_and_side(ns, q, same, other),
        ks,
    ) by {
    }
}

proof fn clear_xor_and_rule(ns: Seq<Node>, ks: Set<usize>)
    requires
        sorted(ns, ks),
    ensures
        forall|p: Ref, q: Ref|
            clear(ns, p, ks) && clear(ns, q, ks) ==> term_clear_opt(
                ns,
                #[trigger] xor_and_rule(ns, p, q),
                ks,
            ),
{
    lemma_parts(ns, ks);
    clear_xor_and_side(ns, ks);
    reveal(xor_and_rule);
    reveal_with_fuel(term_clear, 5);
    assert forall|p: Ref, q: Ref| clear(ns, p, ks) && clear(ns, q, ks) implies term_clear_opt(
        ns,
        #[trigger] xor_and_rule(ns, p, q),
        ks,
    ) by {
    }
}

proof fn clear_xor_cancel_rule(ns: Seq<Node>, ks: Set<usize>)
    requires
        sorted(ns, ks),
    ensures
        forall|p: Ref, q: Ref|
            clear(ns, p, ks) && clear(ns, q, ks) ==> term_clear_opt(
                ns,
                #[trigger] xor_cancel_rule(ns, p, q),
                ks,
            ),
{
    lemma_parts(ns, ks);
    reveal(xor_cancel_rule);
    reveal_with_fuel(term_clear, 5);
    assert forall|p: Ref, q: Ref| clear(ns, p, ks) && clear(ns, q, ks) implies term_clear_opt(
        ns,
        #[trigger] xor_cancel_rule(ns, p, q),
        ks,
    ) by {
    }
}

proof fn clear_xor_structural_rule(ns: Seq<Node>, ks: Set<usize>)
    requires
        sorted(ns, ks),
    ensures
        forall|a: Ref, b: Ref|
            clear(ns, a, ks) && clear(ns, b, ks) ==> term_clear_opt(
                ns,
                #[trigger] xor_structural_rule(ns, a, b),
                ks,
            ),
{
    lemma_parts(ns, ks);
    clear_xor_of_parts_rule(ns, ks);
    clear_xor_of_union_rule(ns, ks);
    clear_xor_or_rule(ns, ks);
    clear_xor_shared_rule(ns, ks);
    reveal(xor_structural_rule);
    reveal_with_fuel(term_clear, 5);
    assert forall|a: Ref, b: Ref| clear(ns, a, ks) && clear(ns, b, ks) implies term_clear_opt(
        ns,
        #[trigger] xor_structural_rule(ns, a, b),
        ks,
    ) by {
    }
}

proof fn clear_xor_rule(ns: Seq<Node>, ks: Set<usize>)
    requires
        sorted(ns, ks),
    ensures
        forall|a: Ref, b: Ref, width: Width|
            clear(ns, a, ks) && clear(ns, b, ks) ==> term_clear_opt(
                ns,
                #[trigger] xor_rule(ns, a, b, width),
                ks,
            ),
{
    lemma_parts(ns, ks);
    clear_xor_trivial_rule(ns, ks);
    clear_xor_nested_rule(ns, ks);
    clear_xor_and_rule(ns, ks);
    clear_xor_cancel_rule(ns, ks);
    clear_xor_structural_rule(ns, ks);
    reveal(xor_rule);
    reveal_with_fuel(term_clear, 5);
    assert forall|a: Ref, b: Ref, width: Width|
        clear(ns, a, ks) && clear(ns, b, ks) implies term_clear_opt(
        ns,
        #[trigger] xor_rule(ns, a, b, width),
        ks,
    ) by {
    }
}

/// What is put in the place of an operation is put together from parts of its operands.
pub proof fn clear_bin_rule(ns: Seq<Node>, ks: Set<usize>)
    requires
        sorted(ns, ks),
    ensures
        forall|op: BinOp, a: Ref, b: Ref, width: Width|
            clear(ns, a, ks) && clear(ns, b, ks) ==> term_clear_opt(
                ns,
                #[trigger] bin_rule(ns, op, a, b, width),
                ks,
            ),
{
    lemma_parts(ns, ks);
    clear_add_rule(ns, ks);
    clear_sub_rule(ns, ks);
    clear_and_rule(ns, ks);
    clear_or_rule(ns, ks);
    clear_xor_rule(ns, ks);
    reveal(bin_rule);
    reveal_with_fuel(term_clear, 5);
    assert forall|op: BinOp, a: Ref, b: Ref, width: Width|
        clear(ns, a, ks) && clear(ns, b, ks) implies term_clear_opt(
        ns,
        #[trigger] bin_rule(ns, op, a, b, width),
        ks,
    ) by {
    }
}

} // verus!
