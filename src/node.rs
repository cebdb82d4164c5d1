//! Taxonomy node records and their display text.
use vstd::prelude::*;

use crate::text::{decimal, decimal_string, replace_all, replaced};

verus! {

/// A taxonomy node: an immutable snapshot of the facts known about one id.
///
/// `names` maps a name class ("scientific name", "synonym", "common name",
/// ...) to its ordered list of names; the first entry of a class wins when a
/// class is listed twice.
#[derive(Debug, Clone, Default)]
pub struct Node {
    pub tax_id: i64,
    pub parent_tax_id: i64,
    pub rank: String,
    pub division: String,
    pub genetic_code: String,
    pub mito_genetic_code: Option<String>,
    pub comments: Option<String>,
    pub names: Vec<(String, Vec<String>)>,
    pub format_string: Option<String>,
}

/// The mathematical content of a [`Node`].
pub struct NodeView {
    pub tax_id: i64,
    pub parent_tax_id: i64,
    pub rank: Seq<char>,
    pub division: Seq<char>,
    pub genetic_code: Seq<char>,
    pub mito_genetic_code: Option<Seq<char>>,
    pub comments: Option<Seq<char>>,
    pub names: Seq<(Seq<char>, Seq<Seq<char>>)>,
    pub format_string: Option<Seq<char>>,
}

pub open spec fn opt_view(o: Option<String>) -> Option<Seq<char>> {
    match o {
        Some(s) => Some(s@),
        None => None,
    }
}

pub open spec fn strings_view(v: Seq<String>) -> Seq<Seq<char>> {
    v.map_values(|s: String| s@)
}

pub open spec fn names_view(v: Seq<(String, Vec<String>)>) -> Seq<(Seq<char>, Seq<Seq<char>>)> {
    v.map_values(|e: (String, Vec<String>)| (e.0@, strings_view(e.1@)))
}

impl View for Node {
    type V = NodeView;

    open spec fn view(&self) -> NodeView {
        NodeView {
            tax_id: self.tax_id,
            parent_tax_id: self.parent_tax_id,
            rank: self.rank@,
            division: self.division@,
            genetic_code: self.genetic_code@,
            mito_genetic_code: opt_view(self.mito_genetic_code),
            comments: opt_view(self.comments),
            names: names_view(self.names@),
            format_string: opt_view(self.format_string),
        }
    }
}

/// The names listed under `class`: those of its first entry, if any.
pub open spec fn class_names(
    names: Seq<(Seq<char>, Seq<Seq<char>>)>,
    class: Seq<char>,
) -> Option<Seq<Seq<char>>>
    decreases names.len(),
{
    if names.len() == 0 {
        None
    } else if names[0].0 == class {
        Some(names[0].1)
    } else {
        class_names(names.subrange(1, names.len() as int), class)
    }
}

pub open spec fn sci_class() -> Seq<char> {
    "scientific name"@
}

/// Number of bytes of `c` in UTF-8.
pub open spec fn utf8_width(c: char) -> nat {
    if (c as u32) < 0x80 {
        1
    } else if (c as u32) < 0x800 {
        2
    } else if (c as u32) < 0x10000 {
        3
    } else {
        4
    }
}

/// Number of bytes of `s` in UTF-8.
pub open spec fn utf8_len(s: Seq<char>) -> nat
    decreases s.len(),
{
    if s.len() == 0 {
        0
    } else {
        utf8_len(s.drop_last()) + utf8_width(s.last())
    }
}

/// Underline of `k` dashes.
pub open spec fn dashes(k: nat) -> Seq<char> {
    Seq::new(k, |i: int| '-')
}

/// One `* name` line per entry, in order.
pub open spec fn bullets(items: Seq<Seq<char>>) -> Seq<char>
    decreases items.len(),
{
    if items.len() == 0 {
        Seq::empty()
    } else {
        bullets(items.drop_last()) + "* "@ + items.last() + "\n"@
    }
}

/// A titled bullet list for a name class, or nothing when the class is absent.
pub open spec fn bullet_section(
    names: Seq<(Seq<char>, Seq<Seq<char>>)>,
    class: Seq<char>,
    title: Seq<char>,
) -> Seq<char> {
    match class_names(names, class) {
        Some(l) => title + bullets(l),
        None => Seq::empty(),
    }
}

impl NodeView {
    /// A scientific name is present: its class is listed with at least one name.
    pub open spec fn has_sci_name(self) -> bool {
        &&& class_names(self.names, sci_class()) is Some
        &&& class_names(self.names, sci_class())->0.len() > 0
    }

    /// Fit for the full description: a scientific name is present, and the
    /// genbank common-name class, when listed, holds at least one name.
    pub open spec fn well_formed(self) -> bool {
        &&& self.has_sci_name()
        &&& (class_names(self.names, "genbank common name"@) is Some ==> class_names(
            self.names,
            "genbank common name"@,
        )->0.len() > 0)
    }

    /// The first scientific name.
    pub open spec fn sci_name(self) -> Seq<char> {
        class_names(self.names, sci_class())->0[0]
    }

    /// `template` with `%taxid`, `%name` and `%rank` substituted, in that order.
    pub open spec fn filled(self, template: Seq<char>) -> Seq<char> {
        replaced(
            replaced(
                replaced(template, "%taxid"@, decimal(self.tax_id as int)),
                "%name"@,
                self.sci_name(),
            ),
            "%rank"@,
            self.rank,
        )
    }

    /// The heading line without its line break: `<scientific name> - <rank>`.
    pub open spec fn heading(self) -> Seq<char> {
        self.sci_name() + " - "@ + self.rank
    }

    /// Heading, underline and id lines.
    pub open spec fn head_block(self) -> Seq<char> {
        self.heading() + "\n"@ + dashes(utf8_len(self.heading())) + "\nNCBI Taxonomy ID: "@
            + decimal(self.tax_id as int) + "\n"@
    }

    /// `Commonly named <first genbank common name>.` when there is one.
    pub open spec fn genbank_line(self) -> Seq<char> {
        match class_names(self.names, "genbank common name"@) {
            Some(l) => "Commonly named "@ + l[0] + ".\n"@,
            None => Seq::empty(),
        }
    }

    /// Synonyms, common names and authorities.
    pub open spec fn names_block(self) -> Seq<char> {
        bullet_section(self.names, "synonym"@, "Same as:\n"@) + self.genbank_line()
            + bullet_section(self.names, "common name"@, "Also known as:\n"@) + bullet_section(
            self.names,
            "authority"@,
            "First description:\n"@,
        )
    }

    /// Division, genetic codes and comments.
    pub open spec fn tail_block(self) -> Seq<char> {
        "Part of the "@ + self.division + ".\n"@ + "Uses the "@ + self.genetic_code
            + " genetic code.\n"@ + match self.mito_genetic_code {
            Some(m) => "Its mitochondria use the "@ + m + " genetic code.\n"@,
            None => Seq::empty(),
        } + match self.comments {
            Some(c) => "\nComments: "@ + c,
            None => Seq::empty(),
        }
    }

    /// The full multi-section description.
    pub open spec fn description(self) -> Seq<char> {
        self.head_block() + self.names_block() + self.tail_block()
    }

    /// The node's own display text: its template filled in, or else its description.
    pub open spec fn text(self) -> Seq<char> {
        match self.format_string {
            Some(t) => self.filled(t),
            None => self.description(),
        }
    }
}

fn clone_opt(o: &Option<String>) -> (r: Option<String>)
    ensures
        opt_view(r) == opt_view(*o),
{
    match o {
        Some(s) => Some(s.clone()),
        None => None,
    }
}

fn clone_strings(v: &Vec<String>) -> (r: Vec<String>)
    ensures
        strings_view(r@) == strings_view(v@),
{
    let mut r: Vec<String> = Vec::new();
    let mut i: usize = 0;
    while i < v.len()
        invariant
            i <= v@.len(),
            r@.len() == i,
            forall|j: int| 0 <= j < i ==> #[trigger] r@[j]@ == v@[j]@,
        decreases v@.len() - i,
    {
        r.push(v[i].clone());
        i = i + 1;
    }
    assert(strings_view(r@) =~= strings_view(v@));
    r
}

/// Append `lit` to `s`.
fn push_lit(s: &mut String, lit: &str)
    ensures
        final(s)@ == old(s)@ + lit@,
{
    s.append(lit);
}

impl Node {
    /// A copy with the same content.
    pub fn duplicate(&self) -> (r: Node)
        ensures
            r@ == self@,
    {
        let mut names: Vec<(String, Vec<String>)> = Vec::new();
        let mut i: usize = 0;
        while i < self.names.len()
            invariant
                i <= self.names@.len(),
                names@.len() == i,
                forall|j: int|
                    0 <= j < i ==> (#[trigger] names@[j]).0@ == self.names@[j].0@ && strings_view(
                        names@[j].1@,
                    ) == strings_view(self.names@[j].1@),
            decreases self.names@.len() - i,
        {
            let e = &self.names[i];
            names.push((e.0.clone(), clone_strings(&e.1)));
            i = i + 1;
        }
        assert(names_view(names@) =~= names_view(self.names@));
        Node {
            tax_id: self.tax_id,
            parent_tax_id: self.parent_tax_id,
            rank: self.rank.clone(),
            division: self.division.clone(),
            genetic_code: self.genetic_code.clone(),
            mito_genetic_code: clone_opt(&self.mito_genetic_code),
            comments: clone_opt(&self.comments),
            names,
            format_string: clone_opt(&self.format_string),
        }
    }

    /// Index of the entry of `names` under which `class` is listed.
    fn class_entry(&self, class: &str) -> (r: Option<usize>)
        ensures
            match r {
                Some(i) => i < self.names@.len() && class_names(self@.names, class@) == Some(
                    self@.names[i as int].1,
                ),
                None => class_names(self@.names, class@) is None,
            },
    {
        let key = String::from_str(class);
        let ghost all = self@.names;
        let mut i: usize = 0;
        assert(all.subrange(0, all.len() as int) =~= all);
        while i < self.names.len()
            invariant
                i <= self.names@.len(),
                all == self@.names,
                all.len() == self.names@.len(),
                key@ == class@,
                class_names(all, class@) == class_names(
                    all.subrange(i as int, all.len() as int),
                    class@,
                ),
            decreases self.names@.len() - i,
        {
            let ghost rest = all.subrange(i as int, all.len() as int);
            assert(rest[0] == all[i as int]);
            if self.names[i].0 == key {
                return Some(i);
            }
            assert(rest.subrange(1, rest.len() as int) =~= all.subrange(
                i + 1,
                all.len() as int,
            ));
            i = i + 1;
        }
        None
    }

    /// Whether a scientific name is present.
    pub fn has_sci_name(&self) -> (r: bool)
        ensures
            r == self@.has_sci_name(),
    {
        proof {
            reveal_strlit("scientific name");
        }
        match self.class_entry("scientific name") {
            None => false,
            Some(i) => {
                assert(self@.names[i as int].1 == strings_view(self.names@[i as int].1@));
                self.names[i].1.len() > 0
            },
        }
    }

    /// Whether a scientific name is present and a listed genbank common-name
    /// class holds a name.
    pub fn is_well_formed(&self) -> (r: bool)
        ensures
            r == self@.well_formed(),
    {
        proof {
            reveal_strlit("scientific name");
        }
        match self.class_entry("scientific name") {
            None => false,
            Some(i) => {
                assert(self@.names[i as int].1 == strings_view(self.names@[i as int].1@));
                if self.names[i].1.len() == 0 {
                    return false;
                }
                match self.class_entry("genbank common name") {
                    None => true,
                    Some(k) => {
                        assert(self@.names[k as int].1 == strings_view(
                            self.names@[k as int].1@,
                        ));
                        self.names[k].1.len() > 0
                    },
                }
            },
        }
    }

    /// The first scientific name.
    pub fn sci_name(&self) -> (r: &String)
        requires
            self@.has_sci_name(),
        ensures
            r@ == self@.sci_name(),
    {
        proof {
            reveal_strlit("scientific name");
        }
        let i = self.class_entry("scientific name").unwrap();
        assert(self@.names[i as int].1.len() > 0);
        &self.names[i].1[0]
    }

    /// `template` with `%taxid`, `%name` and `%rank` substituted, in that order,
    /// literally and without escaping.
    pub fn fill_template(&self, template: &str) -> (r: String)
        requires
            self@.has_sci_name(),
        ensures
            r@ == self@.filled(template@),
    {
        let id = decimal_string(self.tax_id);
        let a = replace_all(template, "%taxid", id.as_str());
        let b = replace_all(a.as_str(), "%name", self.sci_name().as_str());
        replace_all(b.as_str(), "%rank", self.rank.as_str())
    }

    fn push_bullets(&self, out: &mut String, items: &Vec<String>)
        ensures
            final(out)@ == old(out)@ + bullets(strings_view(items@)),
    {
        let ghost v = strings_view(items@);
        let mut i: usize = 0;
        while i < items.len()
            invariant
                i <= items@.len(),
                v == strings_view(items@),
                out@ == old(out)@ + bullets(v.subrange(0, i as int)),
            decreases items@.len() - i,
        {
            proof {
                reveal_strlit("* ");
                reveal_strlit("\n");
            }
            let ghost before = out@;
            push_lit(out, "* ");
            out.append(items[i].as_str());
            push_lit(out, "\n");
            assert(v.subrange(0, i + 1).drop_last() =~= v.subrange(0, i as int));
            assert(out@ =~= old(out)@ + bullets(v.subrange(0, i + 1)));
            i = i + 1;
        }
        assert(v.subrange(0, items@.len() as int) =~= v);
    }

    fn push_section(&self, out: &mut String, class: &str, title: &str)
        ensures
            final(out)@ == old(out)@ + bullet_section(self@.names, class@, title@),
    {
        match self.class_entry(class) {
            Some(i) => {
                out.append(title);
                self.push_bullets(out, &self.names[i].1);
                assert(final(out)@ =~= old(out)@ + bullet_section(self@.names, class@, title@))
                    by {
                    assert(strings_view(self.names@[i as int].1@) == self@.names[i as int].1);
                };
            },
            None => {
                assert(old(out)@ + Seq::<char>::empty() =~= old(out)@);
            },
        }
    }

    /// Number of bytes of `s` in UTF-8.
    fn byte_len(s: &str) -> (r: u128)
        ensures
            r == utf8_len(s@),
    {
        let n = s.unicode_len();
        let mut i: usize = 0;
        let mut total: u128 = 0;
        while i < n
            invariant
                n == s@.len(),
                i <= n,
                total == utf8_len(s@.subrange(0, i as int)),
                total <= 4 * i,
            decreases n - i,
        {
            let c = s.get_char(i);
            let w: u128 = if (c as u32) < 0x80 {
                1
            } else if (c as u32) < 0x800 {
                2
            } else if (c as u32) < 0x10000 {
                3
            } else {
                4
            };
            assert(s@.subrange(0, i + 1).drop_last() =~= s@.subrange(0, i as int));
            total = total + w;
            i = i + 1;
        }
        assert(s@.subrange(0, n as int) =~= s@);
        total
    }

    fn push_head(&self, out: &mut String)
        requires
            self@.has_sci_name(),
        ensures
            final(out)@ == old(out)@ + self@.head_block(),
    {
        let mut head = self.sci_name().clone();
        head.append(" - ");
        head.append(self.rank.as_str());
        let width = Self::byte_len(head.as_str());
        out.append(head.as_str());
        out.append("\n");
        let ghost base = out@;
        let mut k: u128 = 0;
        while k < width
            invariant
                k <= width,
                out@ == base + dashes(k as nat),
            decreases width - k,
        {
            proof {
                reveal_strlit("-");
            }
            out.append("-");
            assert(out@ =~= base + dashes((k + 1) as nat));
            k = k + 1;
        }
        out.append("\nNCBI Taxonomy ID: ");
        let id = decimal_string(self.tax_id);
        out.append(id.as_str());
        out.append("\n");
        assert(final(out)@ =~= old(out)@ + self@.head_block());
    }

    fn push_names(&self, out: &mut String)
        requires
            self@.well_formed(),
        ensures
            final(out)@ == old(out)@ + self@.names_block(),
    {
        self.push_section(out, "synonym", "Same as:\n");
        let ghost s2 = out@;
        match self.class_entry("genbank common name") {
            Some(i) => {
                out.append("Commonly named ");
                assert(self@.names[i as int].1 == strings_view(self.names@[i as int].1@));
                assert(self@.names[i as int].1.len() > 0);
                out.append(self.names[i].1[0].as_str());
                out.append(".\n");
                assert(out@ =~= s2 + self@.genbank_line());
            },
            None => {
                assert(out@ =~= s2 + self@.genbank_line());
            },
        }
        self.push_section(out, "common name", "Also known as:\n");
        self.push_section(out, "authority", "First description:\n");
        assert(final(out)@ =~= old(out)@ + self@.names_block());
    }

    fn push_tail(&self, out: &mut String)
        ensures
            final(out)@ == old(out)@ + self@.tail_block(),
    {
        out.append("Part of the ");
        out.append(self.division.as_str());
        out.append(".\n");
        out.append("Uses the ");
        out.append(self.genetic_code.as_str());
        out.append(" genetic code.\n");
        let ghost s1 = out@;
        match &self.mito_genetic_code {
            Some(m) => {
                out.append("Its mitochondria use the ");
                out.append(m.as_str());
                out.append(" genetic code.\n");
            },
            None => {},
        }
        let ghost s2 = out@;
        match &self.comments {
            Some(c) => {
                out.append("\nComments: ");
                out.append(c.as_str());
            },
            None => {},
        }
        assert(final(out)@ =~= old(out)@ + self@.tail_block());
    }

    /// The full multi-section description of the node.
    pub fn describe(&self) -> (r: String)
        requires
            self@.well_formed(),
        ensures
            r@ == self@.description(),
    {
        let mut out = String::new();
        self.push_head(&mut out);
        self.push_names(&mut out);
        self.push_tail(&mut out);
        assert(out@ =~= self@.description());
        out
    }

    /// The node's display text: its own template filled in when it has one,
    /// otherwise its full description.
    pub fn display_text(&self) -> (r: String)
        requires
            self@.has_sci_name(),
            self@.format_string is None ==> self@.well_formed(),
        ensures
            r@ == self@.text(),
    {
        match &self.format_string {
            Some(t) => self.fill_template(t.as_str()),
            None => self.describe(),
        }
    }
}

} // verus!
