//! The pattern that matches exactly one of a list of literal words.

use crate::regex::regex_wrapper::regex_escape_spec;
use crate::regex::regex_wrapper::escape_literal;
use vstd::prelude::*;
use vstd::string::StringExecFns;

verus! {

/// The parts `parts` from index `from` on, with a bar before each.
pub open spec fn barred_tail(parts: Seq<Seq<char>>, from: int) -> Seq<char>
    decreases parts.len() - from,
{
    if from < 0 || from >= parts.len() {
        Seq::<char>::empty()
    } else {
        seq!['|'] + parts[from] + barred_tail(parts, from + 1)
    }
}

/// The alternation of the pattern texts `parts`: the parts in order,
/// separated by bars, in one group.
pub open spec fn alternation(parts: Seq<Seq<char>>) -> Seq<char> {
    if parts.len() == 0 {
        seq!['(', ')']
    } else {
        seq!['('] + parts[0] + barred_tail(parts, 1) + seq![')']
    }
}

/// The pattern text that matches exactly one of `words`: the alternation
/// of the escaped words.
pub open spec fn union_pattern(words: Seq<Seq<char>>) -> Seq<char> {
    alternation(Seq::new(words.len(), |i: int| regex_escape_spec(words[i])))
}

/// The alternation of the pattern texts `parts`.
pub fn join_alternatives(parts: &Vec<String>) -> (pattern: String)
    ensures
        pattern@ == alternation(Seq::new(parts@.len(), |i: int| parts@[i]@)),
{
    let ghost texts = Seq::new(parts@.len(), |i: int| parts@[i]@);
    proof {
        reveal_strlit("(");
        reveal_strlit(")");
        reveal_strlit("|");
        reveal_strlit("()");
    }
    if parts.len() == 0 {
        let p = String::from_str("()");
        proof {
            assert(p@ =~= seq!['(', ')']);
        }
        return p;
    }
    let mut pattern = String::from_str("(");
    pattern.append(parts[0].as_str());
    let mut i: usize = 1;
    proof {
        assert(pattern@ =~= seq!['('] + texts[0]);
    }
    while i < parts.len()
        invariant
            1 <= i <= parts.len(),
            texts == Seq::new(parts@.len(), |i: int| parts@[i]@),
            pattern@ + barred_tail(texts, i as int) == seq!['('] + texts[0] + barred_tail(
                texts,
                1,
            ),
        decreases parts.len() - i,
    {
        let ghost before = pattern@;
        proof {
            reveal_strlit("|");
        }
        pattern.append("|");
        pattern.append(parts[i].as_str());
        proof {
            assert("|"@ =~= seq!['|']);
            assert(pattern@ + barred_tail(texts, i + 1) =~= before + barred_tail(texts, i as int));
        }
        i += 1;
    }
    proof {
        assert(pattern@ + barred_tail(texts, i as int) =~= pattern@);
    }
    pattern.append(")");
    proof {
        assert(")"@ =~= seq![')']);
    }
    pattern
}

/// The pattern text that matches exactly one of `alts`.
pub fn exact_match_union_regex_pattern(alts: &[&str]) -> (pattern: String)
    ensures
        pattern@ == union_pattern(Seq::new(alts@.len(), |i: int| alts@[i]@)),
{
    let ghost words = Seq::new(alts@.len(), |i: int| alts@[i]@);
    let mut parts: Vec<String> = Vec::with_capacity(alts.len());
    let mut i: usize = 0;
    while i < alts.len()
        invariant
            i <= alts.len(),
            words == Seq::new(alts@.len(), |i: int| alts@[i]@),
            parts@.len() == i,
            forall|k: int| 0 <= k < i ==> (#[trigger] parts@[k])@ == regex_escape_spec(words[k]),
        decreases alts.len() - i,
    {
        parts.push(escape_literal(alts[i]));
        i += 1;
    }
    proof {
        assert(Seq::new(parts@.len(), |i: int| parts@[i]@) =~= Seq::new(
            words.len(),
            |i: int| regex_escape_spec(words[i]),
        ));
    }
    join_alternatives(&parts)
}

} // verus!
