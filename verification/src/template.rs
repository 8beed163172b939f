//! Flattening of template-literal import specifiers: every embedded
//! expression, whatever it is, stands as the fixed word `dynamic`.

use vstd::prelude::*;
use crate::text::{chars_of, push_chars, string_push};

verus! {

/// The parts of a template literal that chunk naming reads: the cooked
/// text of each quasi (`None` where the quasi has no cooked value) and the
/// number of embedded expressions.
pub struct TemplateLiteral {
    pub cooked: Vec<Option<String>>,
    pub expr_count: usize,
}

/// The cooked quasis as character sequences.
pub open spec fn cooked_view(q: Seq<Option<String>>) -> Seq<Option<Seq<char>>> {
    q.map_values(
        |o: Option<String>|
            match o {
                Some(s) => Some(s@),
                None => None,
            },
    )
}

/// The word that stands for every embedded expression.
pub open spec fn dynamic_word() -> Seq<char> {
    seq!['d', 'y', 'n', 'a', 'm', 'i', 'c']
}

/// The first quasi followed by `k` pairs of `dynamic` and the next quasi;
/// `None` as soon as one of those quasis has no cooked value.
pub open spec fn flatten_prefix(q: Seq<Option<Seq<char>>>, k: nat) -> Option<Seq<char>>
    decreases k,
{
    if k == 0 {
        q[0]
    } else {
        match flatten_prefix(q, (k - 1) as nat) {
            Some(acc) => match q[k as int] {
                Some(c) => Some(acc + dynamic_word() + c),
                None => None,
            },
            None => None,
        }
    }
}

/// How many (quasi, expression) pairs follow the first quasi: quasis after
/// the first are zipped with the expressions.
pub open spec fn pair_count(quasis: nat, exprs: nat) -> nat {
    if quasis == 0 {
        0
    } else if quasis - 1 <= exprs {
        (quasis - 1) as nat
    } else {
        exprs
    }
}

/// The flattened path of a template literal; `None` when it has no quasi,
/// when a quasi it reads has no cooked value, or when the result is empty.
pub open spec fn flatten_template(q: Seq<Option<Seq<char>>>, exprs: nat) -> Option<Seq<char>> {
    if q.len() == 0 {
        None
    } else {
        match flatten_prefix(q, pair_count(q.len(), exprs)) {
            Some(r) => if r.len() == 0 {
                None
            } else {
                Some(r)
            },
            None => None,
        }
    }
}

fn push_dynamic(out: &mut String)
    ensures
        final(out)@ == old(out)@ + dynamic_word(),
{
    string_push(out, 'd');
    string_push(out, 'y');
    string_push(out, 'n');
    string_push(out, 'a');
    string_push(out, 'm');
    string_push(out, 'i');
    string_push(out, 'c');
    assert(out@ =~= old(out)@ + dynamic_word());
}

/// Flattens a template literal into a plain path, interleaving the cooked
/// quasis with `dynamic` for each expression (see [`flatten_template`]).
pub fn flatten_tpl(tpl: &TemplateLiteral) -> (r: Option<String>)
    ensures
        r matches Some(p) ==> flatten_template(cooked_view(tpl.cooked@), tpl.expr_count as nat)
            == Some(p@),
        r is None ==> flatten_template(cooked_view(tpl.cooked@), tpl.expr_count as nat) is None,
{
    let ghost q = cooked_view(tpl.cooked@);
    let n = tpl.cooked.len();
    if n == 0 {
        return None;
    }
    let pairs: usize = if n - 1 <= tpl.expr_count {
        n - 1
    } else {
        tpl.expr_count
    };
    assert(pairs == pair_count(q.len(), tpl.expr_count as nat));
    let mut result = String::new();
    match &tpl.cooked[0] {
        Some(c) => {
            let cv = chars_of(c.as_str());
            push_chars(&mut result, &cv);
        },
        None => {
            proof {
                lemma_flatten_prefix_none(q, 0, pairs as nat);
            }
            return None;
        },
    }
    assert(result@ =~= q[0]->0);
    let mut k: usize = 1;
    while k <= pairs
        invariant
            1 <= k <= pairs + 1,
            pairs < n == tpl.cooked.len(),
            q == cooked_view(tpl.cooked@),
            pairs == pair_count(q.len(), tpl.expr_count as nat),
            flatten_prefix(q, (k - 1) as nat) == Some(result@),
        decreases pairs + 1 - k,
    {
        push_dynamic(&mut result);
        match &tpl.cooked[k] {
            Some(c) => {
                let cv = chars_of(c.as_str());
                push_chars(&mut result, &cv);
            },
            None => {
                assert(flatten_prefix(q, k as nat) is None);
                proof {
                    lemma_flatten_prefix_none(q, k as nat, pairs as nat);
                }
                return None;
            },
        }
        k = k + 1;
    }
    if result.as_str().is_empty() {
        return None;
    }
    Some(result)
}

/// Once a prefix fails, every longer prefix fails too.
pub proof fn lemma_flatten_prefix_none(q: Seq<Option<Seq<char>>>, k: nat, m: nat)
    requires
        k <= m,
        flatten_prefix(q, k) is None,
    ensures
        flatten_prefix(q, m) is None,
    decreases m - k,
{
    if k < m {
        lemma_flatten_prefix_none(q, k, (m - 1) as nat);
    }
}

} // verus!
