//! What a regular expression denotes, and that its automaton accepts
//! exactly that.

use vstd::prelude::*;

use crate::laws::law_determinize_language;
use crate::model::{determinizes, word_over, DfaModel};
use crate::parser::{lex, spec_parse};
use crate::products::{
    in_concat, in_repeat, law_concatenate_language, law_empty_language, law_empty_word_language,
    law_length_language, law_matching_language, law_repeat_language, lemma_concatenate_wf,
};
use crate::regex::{concat_nfa, union_nfa, Expr};

verus! {

impl<V> Expr<V> {
    /// The words over `alphabet` that the expression denotes: the empty
    /// word for `Epsilon`, the words of one symbol of the alphabet for `Dot`,
    /// the word of the one symbol for `Letter`, a word of each part in turn
    /// for `Concat`, a word of one of the alternatives for `Union`, and for
    /// `Repeat` as many words of the part in a row as the bounds allow.
    pub open spec fn language(self, alphabet: Set<V>) -> spec_fn(Seq<V>) -> bool
        decreases self,
    {
        match self {
            Expr::Epsilon => |w: Seq<V>| w.len() == 0,
            Expr::Dot => |w: Seq<V>| w.len() == 1 && alphabet.contains(w[0]),
            Expr::Letter(v) => |w: Seq<V>| w == seq![v],
            Expr::Concat(list) => concat_language(list, alphabet, list.len()),
            Expr::Union(list) => union_language(list, alphabet, list.len()),
            Expr::Repeat(sub, lo, hi) => {
                let inner = sub.language(alphabet);
                |w: Seq<V>| in_repeat(inner, lo, hi, w)
            },
        }
    }
}

/// The words that are a word of each of the first `k` parts of `list` in
/// turn.
pub open spec fn concat_language<V>(list: Seq<Expr<V>>, alphabet: Set<V>, k: nat) -> spec_fn(
    Seq<V>,
) -> bool
    decreases list, k,
{
    if k == 0 || k > list.len() {
        |w: Seq<V>| w.len() == 0
    } else {
        let head = concat_language(list, alphabet, (k - 1) as nat);
        let last = list[k - 1].language(alphabet);
        |w: Seq<V>| in_concat(head, last, w)
    }
}

/// The words of one of the first `k` alternatives of `list`.
pub open spec fn union_language<V>(list: Seq<Expr<V>>, alphabet: Set<V>, k: nat) -> spec_fn(
    Seq<V>,
) -> bool
    decreases list, k,
{
    if k == 0 || k > list.len() {
        |w: Seq<V>| false
    } else {
        let head = union_language(list, alphabet, (k - 1) as nat);
        let last = list[k - 1].language(alphabet);
        |w: Seq<V>| head(w) || last(w)
    }
}

/// The automaton of an expression is well formed and accepts the words that
/// the expression denotes, and nothing else.
pub proof fn law_regex_language<V>(e: Expr<V>, alphabet: Set<V>, w: Seq<V>)
    ensures
        e.nfa(alphabet).accepts(w) == (e.language(alphabet))(w),
        e.nfa(alphabet).wf(),
    decreases e,
{
    match e {
        Expr::Epsilon => {
            law_empty_word_language(alphabet, w);
        },
        Expr::Dot => {
            law_length_language(alphabet, 1, w);
        },
        Expr::Letter(v) => {
            law_matching_language(alphabet, seq![v], w);
        },
        Expr::Concat(list) => {
            lemma_concat_language(list, alphabet, list.len(), w);
        },
        Expr::Union(list) => {
            lemma_union_language(list, alphabet, list.len(), w);
        },
        Expr::Repeat(sub, lo, hi) => {
            let a = sub.nfa(alphabet);
            let la = sub.language(alphabet);
            law_regex_language(*sub, alphabet, w);
            assert forall|x: Seq<V>| #[trigger] a.accepts(x) == la(x) by {
                law_regex_language(*sub, alphabet, x);
            }
            law_repeat_language(a, la, lo, hi, w);
        },
    }
}

/// The automaton of the first `k` parts of a list accepts a word of each of
/// them in turn, and nothing else.
pub proof fn lemma_concat_language<V>(list: Seq<Expr<V>>, alphabet: Set<V>, k: nat, w: Seq<V>)
    ensures
        concat_nfa(list, alphabet, k).accepts(w) == (concat_language(list, alphabet, k))(w),
        concat_nfa(list, alphabet, k).wf(),
    decreases list, k,
{
    if k == 0 || k > list.len() {
        law_empty_word_language(alphabet, w);
    } else {
        let head = concat_nfa(list, alphabet, (k - 1) as nat);
        let last = list[k - 1].nfa(alphabet);
        let lh = concat_language(list, alphabet, (k - 1) as nat);
        let ll = list[k - 1].language(alphabet);
        lemma_concat_language(list, alphabet, (k - 1) as nat, w);
        law_regex_language(list[k - 1], alphabet, w);
        assert forall|x: Seq<V>| #[trigger] head.accepts(x) == lh(x) by {
            lemma_concat_language(list, alphabet, (k - 1) as nat, x);
        }
        assert forall|x: Seq<V>| #[trigger] last.accepts(x) == ll(x) by {
            law_regex_language(list[k - 1], alphabet, x);
        }
        lemma_concatenate_wf(head, last);
        law_concatenate_language(head, last, lh, ll, w);
    }
}

/// The automaton of the first `k` alternatives of a list accepts the words
/// of one of them, and nothing else.
pub proof fn lemma_union_language<V>(list: Seq<Expr<V>>, alphabet: Set<V>, k: nat, w: Seq<V>)
    ensures
        union_nfa(list, alphabet, k).accepts(w) == (union_language(list, alphabet, k))(w),
        union_nfa(list, alphabet, k).wf(),
    decreases list, k,
{
    if k == 0 || k > list.len() {
        law_empty_language(alphabet, w);
    } else {
        let head = union_nfa(list, alphabet, (k - 1) as nat);
        let last = list[k - 1].nfa(alphabet);
        lemma_union_language(list, alphabet, (k - 1) as nat, w);
        law_regex_language(list[k - 1], alphabet, w);
        crate::laws::lemma_unite_wf(head, last);
        crate::laws::law_unite_language(head, last, w);
    }
}

/// A determinised automaton of an expression accepts the words over the
/// alphabet that the expression denotes, and nothing else.
pub proof fn law_regex_determinized<V>(e: Expr<V>, alphabet: Set<V>, d: DfaModel<V>, w: Seq<V>)
    requires
        determinizes(e.nfa(alphabet), d),
    ensures
        d.accepts(w) == (word_over(w, alphabet) && (e.language(alphabet))(w)),
{
    law_regex_language(e, alphabet, w);
    lemma_regex_alphabet(e, alphabet);
    law_determinize_language(e.nfa(alphabet), d, w);
}

/// The automaton of an expression has the alphabet over which the
/// expression is read.
pub proof fn lemma_regex_alphabet<V>(e: Expr<V>, alphabet: Set<V>)
    ensures
        e.nfa(alphabet).alphabet == alphabet,
    decreases e,
{
    match e {
        Expr::Epsilon => {},
        Expr::Dot => {},
        Expr::Letter(v) => {},
        Expr::Concat(list) => {
            lemma_concat_alphabet(list, alphabet, list.len());
        },
        Expr::Union(list) => {
            lemma_union_alphabet(list, alphabet, list.len());
        },
        Expr::Repeat(sub, lo, hi) => {
            lemma_regex_alphabet(*sub, alphabet);
            crate::products::lemma_repeat_alphabet(sub.nfa(alphabet), lo, hi);
        },
    }
}

/// The automaton of the first `k` parts of a list has the alphabet over
/// which the list is read.
pub proof fn lemma_concat_alphabet<V>(list: Seq<Expr<V>>, alphabet: Set<V>, k: nat)
    ensures
        concat_nfa(list, alphabet, k).alphabet == alphabet,
    decreases list, k,
{
    if k == 0 || k > list.len() {
    } else {
        lemma_concat_alphabet(list, alphabet, (k - 1) as nat);
        lemma_regex_alphabet(list[k - 1], alphabet);
        assert(alphabet + alphabet =~= alphabet);
    }
}

/// The automaton of the first `k` alternatives of a list has the alphabet
/// over which the list is read.
pub proof fn lemma_union_alphabet<V>(list: Seq<Expr<V>>, alphabet: Set<V>, k: nat)
    ensures
        union_nfa(list, alphabet, k).alphabet == alphabet,
    decreases list, k,
{
    if k == 0 || k > list.len() {
    } else {
        lemma_union_alphabet(list, alphabet, (k - 1) as nat);
        lemma_regex_alphabet(list[k - 1], alphabet);
        assert(alphabet + alphabet =~= alphabet);
    }
}

/// A text that parses, compiled over an alphabet and determinised, accepts
/// the words over the alphabet that its expression denotes, and nothing
/// else.
pub proof fn law_parse_compile(text: Seq<char>, alphabet: Set<char>, d: DfaModel<char>, w: Seq<char>)
    requires
        spec_parse(lex(text)) is Ok,
        determinizes(spec_parse(lex(text))->Ok_0.nfa(alphabet), d),
    ensures
        d.accepts(w) == (word_over(w, alphabet) && (spec_parse(lex(text))->Ok_0.language(alphabet))(
            w,
        )),
{
    law_regex_determinized(spec_parse(lex(text))->Ok_0, alphabet, d, w);
}

} // verus!
