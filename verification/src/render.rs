//! The text of a report: one line for each of its three lists of hosts.

use crate::address::{dotted_quad, format_address};
use crate::monitor::{Report, ReportModel};
use crate::text::texts_of;
use vstd::prelude::*;
use vstd::string::StringExecFns;

verus! {

/// The dotted-quad texts of `hosts`, in order, with a comma and a space
/// between neighbours.
pub open spec fn joined_addresses(hosts: Seq<u32>) -> Seq<char>
    decreases hosts.len(),
{
    if hosts.len() == 0 {
        Seq::empty()
    } else if hosts.len() == 1 {
        dotted_quad(hosts[0])
    } else {
        joined_addresses(hosts.drop_last()) + ", "@ + dotted_quad(hosts.last())
    }
}

/// The line that lists `hosts` under `label`: the label, a colon and a
/// space, and the addresses in square brackets.
pub open spec fn list_line(label: Seq<char>, hosts: Seq<u32>) -> Seq<char> {
    label + ": ["@ + joined_addresses(hosts) + "]"@
}

/// The three lines of a report: the hosts of the finished cycle, the hosts
/// that are new, and the hosts that are gone.
pub open spec fn report_texts(report: ReportModel) -> Seq<Seq<char>> {
    seq![
        list_line("Current Connections"@, report.current),
        list_line("Newly Connected"@, report.newly_connected),
        list_line("Disconnected"@, report.disconnected),
    ]
}

/// The line that lists `hosts` under `label`, such as
/// `Newly Connected: [192.168.100.5, 192.168.100.9]`.
pub fn format_list(label: &str, hosts: &Vec<u32>) -> (line: String)
    ensures
        line@ == list_line(label@, hosts@),
{
    let mut joined: String = String::new();
    let mut i: usize = 0;
    proof {
        assert(hosts@.take(0) =~= Seq::<u32>::empty());
    }
    while i < hosts.len()
        invariant
            i <= hosts.len(),
            joined@ == joined_addresses(hosts@.take(i as int)),
        decreases hosts.len() - i,
    {
        proof {
            assert(hosts@.take(i + 1).drop_last() =~= hosts@.take(i as int));
            assert(hosts@.take(i + 1).last() == hosts@[i as int]);
            assert(hosts@.take(i + 1)[0] == hosts@[0]);
            if i == 0 {
                assert(joined@ + dotted_quad(hosts@[0]) =~= dotted_quad(hosts@[0]));
            }
        }
        if i > 0 {
            joined.append(", ");
        }
        joined.append(format_address(hosts[i]).as_str());
        i = i + 1;
    }
    proof {
        assert(hosts@.take(i as int) =~= hosts@);
    }
    let mut line: String = String::from_str(label);
    line.append(": [");
    line.append(joined.as_str());
    line.append("]");
    line
}

/// The three lines of `report`, in the order in which they are printed.
pub fn report_lines(report: &Report) -> (lines: Vec<String>)
    ensures
        texts_of(lines@) == report_texts(report@),
{
    let mut lines: Vec<String> = Vec::new();
    lines.push(format_list("Current Connections", &report.current));
    lines.push(format_list("Newly Connected", &report.newly_connected));
    lines.push(format_list("Disconnected", &report.disconnected));
    assert(texts_of(lines@) =~= report_texts(report@));
    lines
}

} // verus!
