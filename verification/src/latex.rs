//! LaTeX tables of positions with their images.

use crate::numeric::decimal::append_decimal;
use crate::numeric::decimal::decimal;
use crate::numeric::dyadic_rational_number::number_text;
use crate::numeric::dyadic_rational_number::Dyadic;
use crate::numeric::dyadic_rational_number::DyadicRationalNumber;
use crate::numeric::rational::rational_text;
use crate::numeric::rational::Fraction;
use crate::numeric::rational::Rational;
use vstd::prelude::*;
use vstd::string::StringExecFns;

verus! {

/// One entry of a table: the file of the image of a position, and the
/// temperature, the degree and the fitness of the position.
#[derive(Debug)]
pub struct Entry {
    pub image: String,
    pub temperature: DyadicRationalNumber,
    pub degree: usize,
    pub fitness: Rational,
}

/// Mathematical model of an entry.
pub struct EntryModel {
    pub image: Seq<char>,
    pub temperature: Dyadic,
    pub degree: nat,
    pub fitness: Fraction,
}

impl View for Entry {
    type V = EntryModel;

    open spec fn view(&self) -> EntryModel {
        EntryModel {
            image: self.image@,
            temperature: self.temperature@,
            degree: self.degree as nat,
            fitness: self.fitness@,
        }
    }
}

impl Entry {
    /// The numbers of the entry are well formed.
    pub open spec fn wf(&self) -> bool {
        self.temperature.wf() && self.fitness.wf()
    }
}

/// The models of the entries.
pub open spec fn models(entries: Seq<Entry>) -> Seq<EntryModel> {
    entries.map_values(|e: Entry| e@)
}

/// All the entries are well formed.
pub open spec fn all_wf(entries: Seq<Entry>) -> bool {
    forall|i: int| 0 <= i < entries.len() ==> (#[trigger] entries[i]).wf()
}

/// Whether a fitness is wanted: it is not below the lower bound, where
/// there is one.
pub fn reaches(fitness: &Rational, lower_bound: &Option<Rational>) -> (b: bool)
    ensures
        b == (lower_bound matches Some(bound) ==> !fitness@.lt(bound@)),
{
    match lower_bound {
        Some(bound) => !fitness.lt(bound),
        None => true,
    }
}

/// Where `x` comes first in `s`: before the first entry of lower fitness.
pub open spec fn place_of(s: Seq<EntryModel>, x: EntryModel) -> nat
    decreases s.len(),
{
    if s.len() == 0 || s[0].fitness.lt(x.fitness) {
        0
    } else {
        1 + place_of(s.drop_first(), x)
    }
}

/// The entries in the order of the table: the higher fitness first, and of
/// two entries of the same fitness the later one first.
pub open spec fn ranked(s: Seq<EntryModel>) -> Seq<EntryModel>
    decreases s.len(),
{
    if s.len() == 0 {
        Seq::empty()
    } else {
        let rest = ranked(s.drop_first());
        rest.insert(place_of(rest, s[0]) as int, s[0])
    }
}

/// No entry comes before one of higher fitness.
pub open spec fn descending(s: Seq<EntryModel>) -> bool {
    forall|i: int, j: int| 0 <= i < j < s.len() ==> #[trigger] s[j].fitness.le(#[trigger] s[i].fitness)
}

/// All the fitnesses have positive denominators.
pub open spec fn positive(s: Seq<EntryModel>) -> bool {
    forall|i: int| 0 <= i < s.len() ==> (#[trigger] s[i]).fitness.den > 0
}

/// What the place of an entry says: no entry before it has a lower fitness,
/// and the entry at it has, if there is one.
pub proof fn lemma_place_of(s: Seq<EntryModel>, x: EntryModel)
    ensures
        place_of(s, x) <= s.len(),
        forall|i: int| 0 <= i < place_of(s, x) ==> !(#[trigger] s[i]).fitness.lt(x.fitness),
        place_of(s, x) < s.len() ==> s[place_of(s, x) as int].fitness.lt(x.fitness),
    decreases s.len(),
{
    if !(s.len() == 0 || s[0].fitness.lt(x.fitness)) {
        let rest = s.drop_first();
        lemma_place_of(rest, x);
        assert forall|i: int| 0 <= i < place_of(s, x) implies !(#[trigger] s[i]).fitness.lt(
            x.fitness,
        ) by {
            if i > 0 {
                assert(s[i] == rest[i - 1]);
            }
        }
        if place_of(s, x) < s.len() {
            assert(s[place_of(s, x) as int] == rest[place_of(rest, x) as int]);
        }
    }
}

/// The order of the table holds the same entries, the higher fitness first.
pub proof fn lemma_ranked(s: Seq<EntryModel>)
    requires
        positive(s),
    ensures
        ranked(s).to_multiset() == s.to_multiset(),
        ranked(s).len() == s.len(),
        positive(ranked(s)),
        descending(ranked(s)),
    decreases s.len(),
{
    broadcast use vstd::seq_lib::group_to_multiset_ensures;

    if s.len() > 0 {
        let x = s[0];
        let tail = s.drop_first();
        assert forall|i: int| 0 <= i < tail.len() implies (#[trigger] tail[i]).fitness.den > 0 by {
            assert(tail[i] == s[i + 1]);
        }
        lemma_ranked(tail);
        let rest = ranked(tail);
        let k = place_of(rest, x) as int;
        lemma_place_of(rest, x);
        let all = rest.insert(k, x);
        assert(all == ranked(s));
        // the same entries
        assert(s =~= tail.insert(0, x));
        assert(all.to_multiset() == rest.to_multiset().insert(x));
        assert(s.to_multiset() == tail.to_multiset().insert(x));
        assert forall|i: int| 0 <= i < all.len() implies (#[trigger] all[i]).fitness.den > 0 by {
            if i < k {
                assert(all[i] == rest[i]);
            } else if i > k {
                assert(all[i] == rest[i - 1]);
            }
        }
        // the higher fitness first
        assert forall|i: int, j: int| 0 <= i < j < all.len() implies #[trigger] all[j].fitness.le(
            #[trigger] all[i].fitness,
        ) by {
            if j < k {
                assert(all[i] == rest[i] && all[j] == rest[j]);
            } else if j == k {
                assert(all[i] == rest[i]);
            } else if i == k {
                // after `x` stands what was at its place, of lower fitness, and what follows that
                assert(all[j] == rest[j - 1]);
                if j - 1 > k {
                    assert(rest[j - 1].fitness.le(rest[k].fitness));
                    rest[j - 1].fitness.lemma_le_transitive(rest[k].fitness, x.fitness);
                }
            } else if i < k {
                assert(all[i] == rest[i] && all[j] == rest[j - 1]);
            } else {
                assert(all[i] == rest[i - 1] && all[j] == rest[j - 1]);
            }
        }
    }
}

/// The entries in the order of the table: the higher fitness first, and of
/// two entries of the same fitness the later one first.
pub fn rank(entries: Vec<Entry>) -> (table: Vec<Entry>)
    ensures
        models(table@) == ranked(models(entries@)),
        all_wf(entries@) ==> all_wf(table@),
{
    let ghost start = entries@;
    let mut entries = entries;
    let mut table: Vec<Entry> = Vec::new();
    assert(models(start).subrange(start.len() as int, start.len() as int) =~= Seq::empty());
    assert(models(table@) =~= Seq::empty());
    while entries.len() > 0
        invariant
            entries@ == start.take(entries@.len() as int),
            entries@.len() <= start.len(),
            models(table@) == ranked(
                models(start).subrange(entries@.len() as int, start.len() as int),
            ),
            all_wf(start) ==> all_wf(table@),
        decreases entries@.len(),
    {
        let ghost before = models(table@);
        let ghost n = entries@.len() as int;
        let entry = entries.pop().unwrap();
        assert(entry == start[n - 1]);
        let ghost x = entry@;
        let mut k: usize = 0;
        proof {
            assert(before.skip(0) =~= before);
        }
        while k < table.len() && !table[k].fitness.lt(&entry.fitness)
            invariant
                k <= table@.len(),
                before == models(table@),
                x == entry@,
                place_of(before, x) == k + place_of(before.skip(k as int), x),
            decreases table@.len() - k,
        {
            proof {
                let rest = before.skip(k as int);
                assert(rest[0] == table@[k as int]@);
                assert(rest.drop_first() =~= before.skip(k + 1));
            }
            k += 1;
        }
        proof {
            let rest = before.skip(k as int);
            if k < table@.len() {
                assert(rest[0] == table@[k as int]@);
            }
            assert(place_of(rest, x) == 0);
            let part = models(start).subrange(n - 1, start.len() as int);
            assert(part[0] == x);
            assert(part.drop_first() =~= models(start).subrange(n, start.len() as int));
        }
        let ghost listed = table@;
        table.insert(k, entry);
        proof {
            assert(models(table@) =~= before.insert(k as int, x));
            assert(entries@ =~= start.take(n - 1));
            if all_wf(start) {
                assert forall|i: int| 0 <= i < table@.len() implies (#[trigger] table@[i]).wf() by {
                    if i < k {
                        assert(table@[i] == listed[i]);
                    } else if i > k {
                        assert(table@[i] == listed[i - 1]);
                    }
                }
            }
        }
    }
    proof {
        assert(models(start).subrange(0, start.len() as int) =~= models(start));
    }
    table
}

/// The columns of one entry: image, temperature, degree and fitness.
pub open spec fn columns_text(image_width: Seq<char>) -> Seq<char> {
    "m{"@ + image_width + "} m{0.75cm} m{0.75cm} m{1.25cm}"@
}

/// The columns of the entries from the `idx`-th of a row on, each after a bar.
pub open spec fn more_columns_text(image_width: Seq<char>, idx: nat, columns: nat) -> Seq<char>
    decreases columns - idx,
{
    if idx >= columns {
        Seq::empty()
    } else {
        "|"@ + columns_text(image_width) + more_columns_text(image_width, idx + 1, columns)
    }
}

/// The headings of the entries from the `idx`-th of a row on.
pub open spec fn headings_text(idx: nat, columns: nat) -> Seq<char>
    decreases columns - idx,
{
    if idx >= columns {
        Seq::empty()
    } else {
        (if idx != 0 {
            "& "@
        } else {
            Seq::empty()
        }) + "Position & Temp. & Degree & Fitness"@ + headings_text(idx + 1, columns)
    }
}

/// One entry: the image and the three numbers, each in math mode.
pub open spec fn entry_text(entry: EntryModel, image_width: Seq<char>) -> Seq<char> {
    "\\includegraphics[width="@ + image_width + "]{"@ + entry.image + "} & $"@ + number_text(
        entry.temperature,
    ) + "$ & $"@ + decimal(entry.degree) + "$ & $"@ + rational_text(entry.fitness) + "$ "@
}

/// The rows of the entries from the `k`-th on, which is the `idx`-th of its row.
pub open spec fn rows_text(
    entries: Seq<EntryModel>,
    image_width: Seq<char>,
    columns: nat,
    k: nat,
    idx: nat,
) -> Seq<char>
    decreases entries.len() - k,
{
    if k >= entries.len() {
        // no entry is left: a row that was begun is ended
        if idx == 0 {
            Seq::empty()
        } else {
            "\\\\\n"@
        }
    } else {
        (if idx != 0 {
            "& "@
        } else {
            Seq::empty()
        }) + entry_text(entries[k as int], image_width) + (if idx + 1 >= columns {
            // the row is full
            "\\\\\n"@ + rows_text(entries, image_width, columns, k + 1, 0)
        } else {
            rows_text(entries, image_width, columns, k + 1, idx + 1)
        })
    }
}

/// The whole table: `columns` entries in each row.
pub open spec fn table_text(entries: Seq<EntryModel>, image_width: Seq<char>, columns: nat) -> Seq<
    char,
> {
    "\\begin{longtabu}{"@ + columns_text(image_width) + more_columns_text(
        image_width,
        1,
        columns,
    ) + "} \n\\hline "@ + headings_text(0, columns) + "\\\\ \\hline \\endhead\n"@ + rows_text(
        entries,
        image_width,
        columns,
        0,
        0,
    ) + "\\end{longtabu}\n"@
}

/// Appends the columns of one entry.
fn append_columns(output: &mut String, image_width: &str)
    ensures
        final(output)@ == old(output)@ + columns_text(image_width@),
{
    let ghost start = output@;
    output.append("m{");
    output.append(image_width);
    output.append("} m{0.75cm} m{0.75cm} m{1.25cm}");
    assert(output@ =~= start + columns_text(image_width@));
}

/// Appends one entry.
fn append_entry(output: &mut String, entry: &Entry, image_width: &str)
    requires
        entry.wf(),
    ensures
        final(output)@ == old(output)@ + entry_text(entry@, image_width@),
{
    let ghost start = output@;
    output.append("\\includegraphics[width=");
    output.append(image_width);
    output.append("]{");
    output.append(entry.image.as_str());
    output.append("} & $");
    entry.temperature.write_to(output);
    output.append("$ & $");
    append_decimal(output, entry.degree as u64);
    output.append("$ & $");
    entry.fitness.write_to(output);
    output.append("$ ");
    assert(output@ =~= start + entry_text(entry@, image_width@));
}

/// The LaTeX table of the entries, in the order given, with `columns`
/// entries in each row and images of the width `image_width`.
pub fn table(entries: &Vec<Entry>, columns: usize, image_width: &str) -> (output: String)
    requires
        columns > 0,
        all_wf(entries@),
    ensures
        output@ == table_text(models(entries@), image_width@, columns as nat),
{
    let ghost texts = models(entries@);
    let ghost width = image_width@;
    let mut output = String::new();
    // table start
    output.append("\\begin{longtabu}{");
    append_columns(&mut output, image_width);
    let ghost head = output@;
    let mut idx: usize = 1;
    while idx < columns
        invariant
            1 <= idx <= columns,
            width == image_width@,
            output@ + more_columns_text(width, idx as nat, columns as nat) == head
                + more_columns_text(width, 1, columns as nat),
        decreases columns - idx,
    {
        let ghost now = output@;
        output.append("|");
        append_columns(&mut output, image_width);
        proof {
            assert(output@ + more_columns_text(width, (idx + 1) as nat, columns as nat) =~= now
                + more_columns_text(width, idx as nat, columns as nat));
        }
        idx += 1;
    }
    proof {
        assert(more_columns_text(width, columns as nat, columns as nat) =~= Seq::<char>::empty());
        assert(output@ =~= head + more_columns_text(width, 1, columns as nat));
    }
    output.append("} \n\\hline ");
    // header
    let ghost body = output@;
    let mut idx: usize = 0;
    while idx < columns
        invariant
            idx <= columns,
            output@ + headings_text(idx as nat, columns as nat) == body + headings_text(
                0,
                columns as nat,
            ),
        decreases columns - idx,
    {
        let ghost now = output@;
        if idx != 0 {
            output.append("& ");
        }
        output.append("Position & Temp. & Degree & Fitness");
        proof {
            assert(output@ + headings_text((idx + 1) as nat, columns as nat) =~= now
                + headings_text(idx as nat, columns as nat));
        }
        idx += 1;
    }
    proof {
        assert(headings_text(columns as nat, columns as nat) =~= Seq::<char>::empty());
        assert(output@ =~= body + headings_text(0, columns as nat));
    }
    output.append("\\\\ \\hline \\endhead\n");
    // entries
    let ghost rows = output@;
    let mut k: usize = 0;
    let mut idx: usize = 0;
    while k < entries.len()
        invariant
            k <= entries@.len(),
            idx < columns,
            columns > 0,
            width == image_width@,
            texts == models(entries@),
            all_wf(entries@),
            output@ + rows_text(texts, width, columns as nat, k as nat, idx as nat) == rows
                + rows_text(texts, width, columns as nat, 0, 0),
        decreases entries@.len() - k,
    {
        let ghost now = output@;
        let ghost old_idx = idx;
        if idx != 0 {
            output.append("& ");
        }
        append_entry(&mut output, &entries[k], image_width);
        assert(texts[k as int] == entries@[k as int]@);
        let ghost placed = output@;
        if idx + 1 == columns {
            output.append("\\\\\n");
            idx = 0;
        } else {
            idx += 1;
        }
        proof {
            assert(output@ + rows_text(texts, width, columns as nat, (k + 1) as nat, idx as nat)
                =~= now + rows_text(texts, width, columns as nat, k as nat, old_idx as nat));
        }
        k += 1;
    }
    let ghost last = output@;
    if idx != 0 {
        output.append("\\\\\n");
    }
    proof {
        assert(output@ =~= last + rows_text(texts, width, columns as nat, k as nat, idx as nat));
        assert(output@ =~= rows + rows_text(texts, width, columns as nat, 0, 0));
    }
    output.append("\\end{longtabu}\n");
    proof {
        assert(output@ =~= table_text(texts, width, columns as nat));
    }
    output
}

} // verus!
