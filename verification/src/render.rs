//! Rendering of footnote references: decimal numbers, the two reference styles
//! and the bracketed tokens that stand in for a citation.

use vstd::prelude::*;
use vstd::string::StringExecFns;

verus! {

/// The character of the decimal digit `d`.
pub open spec fn digit_char(d: nat) -> char
    recommends
        d < 10,
{
    if d == 0 {
        '0'
    } else if d == 1 {
        '1'
    } else if d == 2 {
        '2'
    } else if d == 3 {
        '3'
    } else if d == 4 {
        '4'
    } else if d == 5 {
        '5'
    } else if d == 6 {
        '6'
    } else if d == 7 {
        '7'
    } else if d == 8 {
        '8'
    } else {
        '9'
    }
}

/// The decimal numeral of `n`, without sign or leading zeros.
pub open spec fn decimal(n: nat) -> Seq<char>
    decreases n,
{
    if n < 10 {
        seq![digit_char(n)]
    } else {
        decimal(n / 10).push(digit_char(n % 10))
    }
}

/// The parts in order, with a comma and a space between neighbours.
pub open spec fn joined(parts: Seq<Seq<char>>) -> Seq<char>
    decreases parts.len(),
{
    if parts.len() == 0 {
        Seq::empty()
    } else if parts.len() == 1 {
        parts[0]
    } else {
        joined(parts.drop_last()) + seq![',', ' '] + parts.last()
    }
}

/// The anchor that links to footnote `n` and shows `n` as its label.
pub open spec fn anchor(n: nat) -> Seq<char> {
    "<a href=\"#fn:"@ + decimal(n) + "\" class=\"footnote-ref\" role=\"doc-noteref\">"@ + decimal(
        n,
    ) + "</a>"@
}

/// The style in which references are written, chosen once for a whole scan.
#[derive(Clone, Copy, Debug, PartialEq, Eq, Structural)]
pub enum Formatter {
    /// References are anchors that link to the footnote.
    Rich,
    /// References are bare numbers.
    Plain,
}

impl Formatter {
    /// The reference to footnote `n`, without brackets.
    pub open spec fn reference(self, n: nat) -> Seq<char> {
        match self {
            Formatter::Rich => anchor(n),
            Formatter::Plain => decimal(n),
        }
    }

    /// The references to the footnotes `ns`, in order.
    pub open spec fn references(self, ns: Seq<nat>) -> Seq<Seq<char>> {
        Seq::new(ns.len(), |i: int| self.reference(ns[i]))
    }

    /// The token that replaces a single citation of footnote `n`.
    pub open spec fn bare(self, n: nat) -> Seq<char> {
        seq!['['] + self.reference(n) + seq![']']
    }

    /// The token that replaces a bracketed group citing the footnotes `ns`.
    pub open spec fn list(self, ns: Seq<nat>) -> Seq<char> {
        seq!['['] + joined(self.references(ns)) + seq![']']
    }

    /// The formatter for the given choice: plain numbers if `nohtml`, anchors otherwise.
    pub fn select(nohtml: bool) -> (f: Formatter)
        ensures
            f == (if nohtml {
                Formatter::Plain
            } else {
                Formatter::Rich
            }),
    {
        if nohtml {
            Formatter::Plain
        } else {
            Formatter::Rich
        }
    }

    /// Writes the reference to footnote `index`, without brackets.
    pub fn render_reference(self, index: usize) -> (s: String)
        ensures
            s@ == self.reference(index as nat),
    {
        match self {
            Formatter::Rich => html_citation(index),
            Formatter::Plain => decimal_string(index),
        }
    }

    /// Writes the token for a single citation of footnote `index`.
    pub fn render_bare(self, index: usize) -> (s: String)
        ensures
            s@ == self.bare(index as nat),
    {
        match self {
            Formatter::Rich => html_single_citation(index),
            Formatter::Plain => {
                let mut s = String::new();
                s.push('[');
                push_decimal(index, &mut s);
                s.push(']');
                s
            },
        }
    }

    /// Writes the token for a bracketed group citing the footnotes `indices`.
    pub fn render_list(self, indices: &Vec<usize>) -> (s: String)
        ensures
            s@ == self.list(indices@.map_values(|i: usize| i as nat)),
    {
        let ghost ns = indices@.map_values(|i: usize| i as nat);
        let ghost refs = self.references(ns);
        let mut s = String::new();
        s.push('[');
        let mut i: usize = 0;
        while i < indices.len()
            invariant
                i <= indices.len(),
                ns == indices@.map_values(|i: usize| i as nat),
                refs == self.references(ns),
                s@ == seq!['['] + joined(refs.take(i as int)),
            decreases indices.len() - i,
        {
            let part = self.render_reference(indices[i]);
            proof {
                assert(refs.take(i + 1).drop_last() =~= refs.take(i as int));
            }
            if i > 0 {
                s.push(',');
                s.push(' ');
                proof {
                    assert(seq!['['] + joined(refs.take(i as int)) + seq![',', ' '] + part@
                        =~= seq!['['] + joined(refs.take(i + 1)));
                    assert((seq!['['] + joined(refs.take(i as int))).push(',').push(' ')
                        =~= seq!['['] + joined(refs.take(i as int)) + seq![',', ' ']);
                }
            } else {
                proof {
                    assert(seq!['['] + joined(refs.take(0)) + part@ =~= seq!['['] + joined(
                        refs.take(1),
                    ));
                }
            }
            s.append(part.as_str());
            i += 1;
        }
        proof {
            assert(refs.take(indices.len() as int) =~= refs);
        }
        s.push(']');
        s
    }
}

/// Appends the decimal numeral of `n` to `out`.
pub fn push_decimal(n: usize, out: &mut String)
    ensures
        final(out)@ == old(out)@ + decimal(n as nat),
    decreases n,
{
    if n >= 10 {
        push_decimal(n / 10, out);
    }
    let d: usize = n % 10;
    let c: char = if d == 0 {
        '0'
    } else if d == 1 {
        '1'
    } else if d == 2 {
        '2'
    } else if d == 3 {
        '3'
    } else if d == 4 {
        '4'
    } else if d == 5 {
        '5'
    } else if d == 6 {
        '6'
    } else if d == 7 {
        '7'
    } else if d == 8 {
        '8'
    } else {
        '9'
    };
    out.push(c);
}

/// The decimal numeral of `n` as a string.
pub fn decimal_string(n: usize) -> (s: String)
    ensures
        s@ == decimal(n as nat),
{
    let mut s = String::new();
    push_decimal(n, &mut s);
    s
}

/// The anchor that links to footnote `count` and shows `count` as its label.
pub fn html_citation(count: usize) -> (s: String)
    ensures
        s@ == anchor(count as nat),
{
    let mut s = String::new();
    s.append("<a href=\"#fn:");
    push_decimal(count, &mut s);
    s.append("\" class=\"footnote-ref\" role=\"doc-noteref\">");
    push_decimal(count, &mut s);
    s.append("</a>");
    s
}

/// The anchor of footnote `count` between square brackets.
pub fn html_single_citation(count: usize) -> (s: String)
    ensures
        s@ == Formatter::Rich.bare(count as nat),
{
    let mut s = String::new();
    s.push('[');
    let inner = html_citation(count);
    s.append(inner.as_str());
    s.push(']');
    s
}

} // verus!
