//! The term database: domain words the editor should prefer, with the
//! phrases the recogniser tends to hear instead.
use vstd::prelude::*;
use vstd::string::*;
use crate::text::{clone_strings, strings_model};

verus! {

/// One domain term.
#[derive(Debug, Clone, PartialEq, Eq)]
pub struct Term {
    pub name: String,
    pub aliases: Vec<String>,
    pub hint: String,
}

/// A list of terms.
#[derive(Debug, Clone)]
pub struct TermDb {
    pub entries: Vec<Term>,
}

/// A term as plain sequences.
pub struct TermModel {
    pub name: Seq<char>,
    pub aliases: Seq<Seq<char>>,
    pub hint: Seq<char>,
}

impl View for Term {
    type V = TermModel;

    open spec fn view(&self) -> TermModel {
        TermModel {
            name: self.name@,
            aliases: strings_model(self.aliases@),
            hint: self.hint@,
        }
    }
}

/// The terms of a list, as models.
pub open spec fn terms_model(v: Seq<Term>) -> Seq<TermModel> {
    v.map_values(|t: Term| t@)
}

/// `"a"` (the alias in double quotes).
pub open spec fn quoted(a: Seq<char>) -> Seq<char> {
    seq!['"'] + a + seq!['"']
}

/// The aliases, each quoted, separated by `", "`.
pub open spec fn quoted_list(aliases: Seq<Seq<char>>) -> Seq<char>
    decreases aliases.len(),
{
    if aliases.len() == 0 {
        Seq::empty()
    } else if aliases.len() == 1 {
        quoted(aliases[0])
    } else {
        quoted_list(aliases.drop_last()) + seq![',', ' '] + quoted(aliases.last())
    }
}

/// One line of the prompt block:
/// `name — hint (sounds-like: "alias1", "alias2")`, where the hint part and
/// the aliases part are left out when empty.
pub open spec fn term_line(t: TermModel) -> Seq<char> {
    let hint_part = if t.hint.len() > 0 {
        seq![' ', '\u{2014}', ' '] + t.hint
    } else {
        Seq::empty()
    };
    let alias_part = if t.aliases.len() > 0 {
        " (sounds-like: "@ + quoted_list(t.aliases) + seq![')']
    } else {
        Seq::empty()
    };
    t.name + hint_part + alias_part + seq!['\n']
}

/// A term's line starts with its name and, when it has a hint, ` — ` and
/// the hint, whatever its aliases; the aliases follow in
/// `(sounds-like: ...)` only when there are any; the line ends with a
/// newline. Lines of terms that differ only in their aliases agree up to
/// the end of the hint.
pub proof fn law_term_line_shape(t: TermModel, u: TermModel)
    ensures
        ({
            let l = term_line(t);
            let head = if t.hint.len() > 0 { t.name + seq![' ', '\u{2014}', ' '] + t.hint } else { t.name };
            &&& l.len() > head.len()
            &&& l.take(head.len() as int) == head
            &&& l.last() == '\n'
            &&& (t.aliases.len() == 0 ==> l == head + seq!['\n'])
            &&& (t.aliases.len() > 0 ==> l.skip(head.len() as int).take(15) == " (sounds-like: "@)
            &&& (u.name == t.name && u.hint == t.hint ==> term_line(u).take(head.len() as int) == head)
        }),
{
    reveal_strlit(" (sounds-like: ");
    let head = if t.hint.len() > 0 { t.name + seq![' ', '\u{2014}', ' '] + t.hint } else { t.name };
    let l = term_line(t);
    assert(l.take(head.len() as int) =~= head);
    if t.aliases.len() > 0 {
        assert(l.skip(head.len() as int).take(15) =~= " (sounds-like: "@);
    } else {
        assert(l =~= head + seq!['\n']);
    }
    if u.name == t.name && u.hint == t.hint {
        assert(term_line(u).take(head.len() as int) =~= head);
    }
}

/// The prompt block: one line per term, in order.
pub open spec fn prompt_block(terms: Seq<TermModel>) -> Seq<char>
    decreases terms.len(),
{
    if terms.len() == 0 {
        Seq::empty()
    } else {
        prompt_block(terms.drop_last()) + term_line(terms.last())
    }
}

/// Renders the term DB as lines suitable for a system prompt.
pub fn render_prompt_block(db: &TermDb) -> (out: String)
    ensures
        out@ == prompt_block(terms_model(db.entries@)),
{
    let mut out = String::new();
    let mut k: usize = 0;
    while k < db.entries.len()
        invariant
            k <= db.entries@.len(),
            out@ == prompt_block(terms_model(db.entries@).take(k as int)),
        decreases db.entries@.len() - k,
    {
        let t = &db.entries[k];
        let ghost before = out@;
        out.append(t.name.as_str());
        if !t.hint.as_str().is_empty() {
            proof {
                reveal_strlit(" \u{2014} ");
            }
            out.append(" \u{2014} ");
            out.append(t.hint.as_str());
        }
        if t.aliases.len() > 0 {
            proof {
                reveal_strlit(" (sounds-like: ");
            }
            out.append(" (sounds-like: ");
            let mut i: usize = 0;
            let ghost mid = out@;
            let ghost al = t@.aliases;
            while i < t.aliases.len()
                invariant
                    i <= t.aliases@.len(),
                    al == t@.aliases,
                    al.len() == t.aliases@.len(),
                    out@ == mid + quoted_list(al.take(i as int)),
                decreases t.aliases@.len() - i,
            {
                let ghost prev = out@;
                if i > 0 {
                    proof {
                        reveal_strlit(", ");
                    }
                    out.append(", ");
                }
                proof {
                    reveal_strlit("\"");
                }
                out.append("\"");
                out.append(t.aliases[i].as_str());
                out.append("\"");
                proof {
                    assert(al.take(i + 1).drop_last() =~= al.take(i as int));
                    assert(al.take(i + 1).last() == t.aliases@[i as int]@);
                    if i == 0 {
                        assert(al.take(0) =~= Seq::<Seq<char>>::empty());
                    }
                }
                i = i + 1;
                assert(out@ =~= mid + quoted_list(al.take(i as int)));
            }
            proof {
                reveal_strlit(")");
                assert(al.take(al.len() as int) =~= al);
            }
            out.append(")");
        }
        proof {
            reveal_strlit("\n");
        }
        out.append("\n");
        proof {
            let tm = terms_model(db.entries@);
            assert(tm.take(k + 1).drop_last() =~= tm.take(k as int));
            assert(tm.take(k + 1).last() == db.entries@[k as int]@);
            reveal_strlit(" (sounds-like: ");
            reveal_strlit(" \u{2014} ");
        }
        k = k + 1;
        assert(out@ =~= prompt_block(terms_model(db.entries@).take(k as int)));
    }
    assert(terms_model(db.entries@).take(db.entries@.len() as int) =~= terms_model(db.entries@));
    out
}

/// A copy of a term.
pub fn clone_term(t: &Term) -> (c: Term)
    ensures
        c@ == t@,
{
    Term { name: t.name.clone(), aliases: clone_strings(&t.aliases), hint: t.hint.clone() }
}

} // verus!
