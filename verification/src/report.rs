//! The text of the printed report and the cells of the listing table.

use vstd::prelude::*;

verus! {

/// The report's first line, without its line break.
pub open spec fn report_title() -> Seq<char> {
    "FileName  ---------->  Size(%)  ---------->  Size"@
}

/// The separator between the columns of a report line.
pub open spec fn column_separator() -> Seq<char> {
    "  ---------->  "@
}

/// One report line: name, percentage followed by " %", size, line break.
pub open spec fn report_line(name: Seq<char>, percent: Seq<char>, size: Seq<char>) -> Seq<char> {
    name + column_separator() + percent + " %"@ + column_separator() + size + "\n"@
}

/// The title, an empty line, then one line for each of the first `n`
/// entries.
pub open spec fn report_spec(names: Seq<Seq<char>>, percents: Seq<Seq<char>>, sizes: Seq<Seq<char>>, n: nat) -> Seq<char>
    decreases n,
{
    if n == 0 {
        report_title() + "\n"@ + "\n"@
    } else {
        report_spec(names, percents, sizes, (n - 1) as nat)
            + report_line(names[n - 1], percents[n - 1], sizes[n - 1])
    }
}

/// The number of characters in the report line of one entry: its name,
/// percentage and size, two 15-character separators, " %" and a line break.
pub open spec fn entry_line_len(name: Seq<char>, percent: Seq<char>, size: Seq<char>) -> nat {
    name.len() + percent.len() + size.len() + 33
}

/// Where the line of entry `i` starts in the report: after the 51
/// characters of the title and the empty line, and the lines before it.
pub open spec fn line_start(names: Seq<Seq<char>>, percents: Seq<Seq<char>>, sizes: Seq<Seq<char>>, i: nat) -> nat
    decreases i,
{
    if i == 0 {
        51
    } else {
        line_start(names, percents, sizes, (i - 1) as nat)
            + entry_line_len(names[i - 1], percents[i - 1], sizes[i - 1])
    }
}

/// The report of `n` entries is laid out line by line: the title and an
/// empty line fill its first 51 characters, then the line of each entry
/// `i < n` (name, separator, percentage, " %", separator, size, line break)
/// fills the characters from `line_start(i)` to `line_start(i + 1)`, and
/// nothing follows the last one.
pub proof fn lemma_report_layout(names: Seq<Seq<char>>, percents: Seq<Seq<char>>, sizes: Seq<Seq<char>>, n: nat)
    requires
        names.len() >= n,
        percents.len() >= n,
        sizes.len() >= n,
    ensures
        report_spec(names, percents, sizes, n).len() == line_start(names, percents, sizes, n),
        report_spec(names, percents, sizes, n).subrange(0, 51)
            == "FileName  ---------->  Size(%)  ---------->  Size"@ + "\n"@ + "\n"@,
        forall|i: nat| i < n ==> #[trigger] report_spec(names, percents, sizes, n).subrange(
            line_start(names, percents, sizes, i) as int,
            line_start(names, percents, sizes, i + 1) as int,
        ) == names[i as int] + "  ---------->  "@ + percents[i as int] + " %"@ + "  ---------->  "@
            + sizes[i as int] + "\n"@,
    decreases n,
{
    reveal_strlit("FileName  ---------->  Size(%)  ---------->  Size");
    reveal_strlit("  ---------->  ");
    reveal_strlit(" %");
    reveal_strlit("\n");
    let r = report_spec(names, percents, sizes, n);
    if n > 0 {
        let k = (n - 1) as nat;
        lemma_report_layout(names, percents, sizes, k);
        let prev = report_spec(names, percents, sizes, k);
        let line = report_line(names[k as int], percents[k as int], sizes[k as int]);
        assert(r == prev + line);
        assert(line.len() == entry_line_len(names[k as int], percents[k as int], sizes[k as int]));
        assert(r.subrange(0, 51) =~= prev.subrange(0, 51)) by {
            lemma_line_start_at_least(names, percents, sizes, k);
        }
        assert forall|i: nat| i < n implies #[trigger] r.subrange(
            line_start(names, percents, sizes, i) as int,
            line_start(names, percents, sizes, i + 1) as int,
        ) == names[i as int] + "  ---------->  "@ + percents[i as int] + " %"@ + "  ---------->  "@
            + sizes[i as int] + "\n"@ by {
            if i < k {
                lemma_line_start_monotone(names, percents, sizes, i + 1, k);
                lemma_line_start_monotone(names, percents, sizes, i, i + 1);
                assert(r.subrange(
                    line_start(names, percents, sizes, i) as int,
                    line_start(names, percents, sizes, i + 1) as int,
                ) =~= prev.subrange(
                    line_start(names, percents, sizes, i) as int,
                    line_start(names, percents, sizes, i + 1) as int,
                ));
            } else {
                assert(r.subrange(
                    line_start(names, percents, sizes, i) as int,
                    line_start(names, percents, sizes, i + 1) as int,
                ) =~= line);
            }
        }
    } else {
        assert(r.len() == 51);
        assert(r.subrange(0, 51) =~= r);
    }
}

/// The title and the empty line come before every entry's line.
pub proof fn lemma_line_start_at_least(names: Seq<Seq<char>>, percents: Seq<Seq<char>>, sizes: Seq<Seq<char>>, i: nat)
    ensures
        line_start(names, percents, sizes, i) >= 51,
    decreases i,
{
    if i > 0 {
        lemma_line_start_at_least(names, percents, sizes, (i - 1) as nat);
    }
}

/// Lines start in the order of their entries.
pub proof fn lemma_line_start_monotone(names: Seq<Seq<char>>, percents: Seq<Seq<char>>, sizes: Seq<Seq<char>>, i: nat, j: nat)
    requires
        i <= j,
    ensures
        line_start(names, percents, sizes, i) <= line_start(names, percents, sizes, j),
    decreases j,
{
    if i < j {
        lemma_line_start_monotone(names, percents, sizes, i, (j - 1) as nat);
    }
}

/// The text of the printed report for the entries `names`, with their
/// percentage labels and size labels.
pub fn report_text(names: &Vec<String>, percents: &Vec<String>, sizes: &Vec<String>) -> (text: String)
    requires
        percents.len() >= names.len(),
        sizes.len() >= names.len(),
    ensures
        text@ == report_spec(
            names@.map_values(|s: String| s@),
            percents@.map_values(|s: String| s@),
            sizes@.map_values(|s: String| s@),
            names.len() as nat,
        ),
        text@.len() == line_start(
            names@.map_values(|s: String| s@),
            percents@.map_values(|s: String| s@),
            sizes@.map_values(|s: String| s@),
            names.len() as nat,
        ),
        text@.subrange(0, 51) == "FileName  ---------->  Size(%)  ---------->  Size"@ + "\n"@ + "\n"@,
        forall|i: int| #![trigger names[i]] 0 <= i < names.len() ==> text@.subrange(
            line_start(
                names@.map_values(|s: String| s@),
                percents@.map_values(|s: String| s@),
                sizes@.map_values(|s: String| s@),
                i as nat,
            ) as int,
            line_start(
                names@.map_values(|s: String| s@),
                percents@.map_values(|s: String| s@),
                sizes@.map_values(|s: String| s@),
                (i + 1) as nat,
            ) as int,
        ) == names[i]@ + "  ---------->  "@ + percents[i]@ + " %"@ + "  ---------->  "@ + sizes[i]@ + "\n"@,
{
    let ghost ns = names@.map_values(|s: String| s@);
    let ghost ps = percents@.map_values(|s: String| s@);
    let ghost ss = sizes@.map_values(|s: String| s@);
    let mut text = String::new();
    text.append("FileName  ---------->  Size(%)  ---------->  Size");
    text.append("\n");
    text.append("\n");
    assert(text@ =~= report_spec(ns, ps, ss, 0));
    for i in 0..names.len()
        invariant
            percents.len() >= names.len(),
            sizes.len() >= names.len(),
            ns == names@.map_values(|s: String| s@),
            ps == percents@.map_values(|s: String| s@),
            ss == sizes@.map_values(|s: String| s@),
            text@ == report_spec(ns, ps, ss, i as nat),
    {
        let ghost before = text@;
        text.append(names[i].as_str());
        text.append("  ---------->  ");
        text.append(percents[i].as_str());
        text.append(" %");
        text.append("  ---------->  ");
        text.append(sizes[i].as_str());
        text.append("\n");
        assert(text@ =~= before + report_line(ns[i as int], ps[i as int], ss[i as int]));
    }
    proof {
        lemma_report_layout(ns, ps, ss, names.len() as nat);
        assert forall|i: int| #![trigger names[i]] 0 <= i < names.len() implies text@.subrange(
            line_start(ns, ps, ss, i as nat) as int,
            line_start(ns, ps, ss, (i + 1) as nat) as int,
        ) == names[i]@ + "  ---------->  "@ + percents[i]@ + " %"@ + "  ---------->  "@ + sizes[i]@ + "\n"@ by {
            assert(ns[i] == names[i]@);
            assert(ps[i] == percents[i]@);
            assert(ss[i] == sizes[i]@);
        }
    }
    text
}

/// The name cell of row `row` of the listing table: the directory itself
/// (row 0) as it is, each entry below it indented by two spaces.
pub open spec fn name_cell_spec(row: nat, name: Seq<char>) -> Seq<char> {
    if row == 0 { name } else { "  "@ + name }
}

/// The name cell of row `row` of the listing table.
pub fn name_cell(row: usize, name: &str) -> (cell: String)
    ensures
        cell@ == name_cell_spec(row as nat, name@),
        row == 0 ==> cell@ == name@,
        row != 0 ==> cell@ == seq![' ', ' '] + name@,
{
    if row == 0 {
        name.to_owned()
    } else {
        let mut cell = String::new();
        cell.append("  ");
        cell.append(name);
        proof { reveal_strlit("  "); }
        assert(cell@ =~= seq![' ', ' '] + name@);
        cell
    }
}

/// The percentage cell of the listing table: the label followed by "%".
pub fn percent_cell(label: &str) -> (cell: String)
    ensures
        cell@ == label@ + "%"@,
{
    let mut cell = String::new();
    cell.append(label);
    cell.append("%");
    cell
}

} // verus!
