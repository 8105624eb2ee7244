//! The occurrence report: one block per candidate, its name and count, then
//! the manifest of each package that declares it.
use vstd::prelude::*;
use vstd::string::StringExecFns;
use crate::aggregate::{strings_view, Record};

verus! {

pub open spec fn digit_char(d: nat) -> char {
    if d == 0 {
        '0'
    } else if d == 1 {
        '1'
    } else if d == 2 {
        '2'
    } else if d == 3 {
        '3'
    } else if d == 4 {
        '4'
    } else if d == 5 {
        '5'
    } else if d == 6 {
        '6'
    } else if d == 7 {
        '7'
    } else if d == 8 {
        '8'
    } else {
        '9'
    }
}

/// The decimal digits of `n`, most significant first.
pub open spec fn decimal(n: nat) -> Seq<char>
    decreases n,
{
    if n < 10 {
        seq![digit_char(n)]
    } else {
        decimal(n / 10).push(digit_char(n % 10))
    }
}

pub open spec fn heading_line(name: Seq<char>, count: nat) -> Seq<char> {
    "==== Dependency: '"@ + name + "' ("@ + decimal(count) + ") ====="@
}

pub open spec fn package_line(path: Seq<char>) -> Seq<char> {
    "  - "@ + path
}

/// The lines of the report: for each record whose count reaches
/// `threshold`, in order, its heading and one line per contributing package.
pub open spec fn report_of(records: Seq<Record>, threshold: nat) -> Seq<Seq<char>>
    decreases records.len(),
{
    if records.len() == 0 {
        seq![]
    } else {
        let r = records.last();
        let before = report_of(records.drop_last(), threshold);
        if r.count >= threshold {
            before + seq![heading_line(r.name@, r.count as nat)] + strings_view(
                r.workspace_packages@,
            ).map_values(|p: Seq<char>| package_line(p))
        } else {
            before
        }
    }
}

/// Relies on `usize::to_string` (its `Display`): the decimal digits.
#[verifier::external_body]
fn decimal_string(n: usize) -> (r: String)
    ensures
        r@ == decimal(n as nat),
{
    n.to_string()
}

fn heading(name: &str, count: usize) -> (r: String)
    ensures
        r@ == heading_line(name@, count as nat),
{
    let mut line = "==== Dependency: '".to_owned();
    line.append(name);
    line.append("' (");
    let digits = decimal_string(count);
    line.append(digits.as_str());
    line.append(") =====");
    line
}

fn package_bullet(path: &str) -> (r: String)
    ensures
        r@ == package_line(path@),
{
    let mut line = "  - ".to_owned();
    line.append(path);
    line
}

/// The report of the candidates among `records`, as lines.
pub fn report_lines(records: &Vec<Record>, threshold: usize) -> (r: Vec<String>)
    ensures
        strings_view(r@) == report_of(records@, threshold as nat),
{
    let mut lines: Vec<String> = Vec::new();
    let mut i: usize = 0;
    while i < records.len()
        invariant
            i <= records@.len(),
            strings_view(lines@) == report_of(records@.take(i as int), threshold as nat),
        decreases records@.len() - i,
    {
        let rec = &records[i];
        proof {
            assert(records@.take(i + 1).drop_last() =~= records@.take(i as int));
        }
        if rec.count >= threshold {
            let ghost base = strings_view(lines@);
            lines.push(heading(rec.name.as_str(), rec.count));
            let ghost head = strings_view(lines@);
            proof {
                assert(head =~= base + seq![heading_line(rec.name@, rec.count as nat)]);
            }
            let mut j: usize = 0;
            while j < rec.workspace_packages.len()
                invariant
                    i < records@.len(),
                    rec == records@[i as int],
                    j <= rec.workspace_packages@.len(),
                    strings_view(lines@) == head + strings_view(
                        rec.workspace_packages@.take(j as int),
                    ).map_values(|p: Seq<char>| package_line(p)),
                decreases rec.workspace_packages@.len() - j,
            {
                let ghost prev = strings_view(lines@);
                let bullet = package_bullet(rec.workspace_packages[j].as_str());
                lines.push(bullet);
                proof {
                    assert(strings_view(lines@) =~= prev.push(bullet@));
                    assert(strings_view(rec.workspace_packages@.take(j + 1)).map_values(
                        |p: Seq<char>| package_line(p),
                    ) =~= strings_view(rec.workspace_packages@.take(j as int)).map_values(
                        |p: Seq<char>| package_line(p),
                    ).push(package_line(rec.workspace_packages@[j as int]@)));
                    assert(strings_view(lines@) =~= head + strings_view(
                        rec.workspace_packages@.take(j + 1),
                    ).map_values(|p: Seq<char>| package_line(p)));
                }
                j = j + 1;
            }
            proof {
                assert(rec.workspace_packages@.take(j as int) =~= rec.workspace_packages@);
            }
        }
        i = i + 1;
    }
    proof {
        assert(records@.take(i as int) =~= records@);
    }
    lines
}

} // verus!
