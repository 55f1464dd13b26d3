//! Deterministic rendering of a profile's entries into hosts-file text.
//!
//! The document is a pure function of the profile name and the entry
//! sequence: a comment header naming the profile, then one
//! `<address> <host>` line per entry, in the order given. No file access
//! happens here.

use vstd::prelude::*;
use vstd::string::StringExecFns;

verus! {

/// One host-to-address mapping, as rendered.
pub struct HostEntry {
    pub host: String,
    pub address: String,
}

/// A profile name together with the entries to render.
pub struct HostsTemplate {
    pub entries: Vec<HostEntry>,
    pub profile: String,
}

/// One rendered line: the address, a space, the host, a line break.
pub open spec fn render_line(host: Seq<char>, address: Seq<char>) -> Seq<char> {
    address + " "@ + host + "\n"@
}

/// The rendered lines of a sequence of (host, address) pairs, in order.
pub open spec fn render_lines(entries: Seq<(Seq<char>, Seq<char>)>) -> Seq<char>
    decreases entries.len(),
{
    if entries.len() == 0 {
        Seq::empty()
    } else {
        render_lines(entries.drop_last()) + render_line(entries.last().0, entries.last().1)
    }
}

/// The full document: a comment header naming the profile, then the lines.
pub open spec fn spec_render(profile: Seq<char>, entries: Seq<(Seq<char>, Seq<char>)>) -> Seq<
    char,
> {
    "# hostctl profile: "@ + profile + "\n"@ + render_lines(entries)
}

/// The (host, address) views of rendered entries.
pub open spec fn entry_pairs(entries: Seq<HostEntry>) -> Seq<(Seq<char>, Seq<char>)> {
    entries.map_values(|e: HostEntry| (e.host@, e.address@))
}

impl HostsTemplate {
    /// Renders the document.
    pub fn render(&self) -> (r: String)
        ensures
            r@ == spec_render(self.profile@, entry_pairs(self.entries@)),
    {
        let mut out = String::from_str("# hostctl profile: ");
        out.append(self.profile.as_str());
        out.append("\n");
        proof {
            assert(entry_pairs(self.entries@).take(0) =~= Seq::<(Seq<char>, Seq<char>)>::empty());
        }
        let n = self.entries.len();
        let mut i: usize = 0;
        while i < n
            invariant
                i <= n,
                n == self.entries@.len(),
                out@ == spec_render(self.profile@, entry_pairs(self.entries@).take(i as int)),
            decreases n - i,
        {
            let e = &self.entries[i];
            out.append(e.address.as_str());
            out.append(" ");
            out.append(e.host.as_str());
            out.append("\n");
            proof {
                let ps = entry_pairs(self.entries@);
                assert(ps.take(i + 1).drop_last() =~= ps.take(i as int));
                assert(ps.take(i + 1).last() == ps[i as int]);
                assert(ps[i as int] == (e.host@, e.address@));
                assert(out@ =~= spec_render(self.profile@, ps.take(i + 1)));
            }
            i = i + 1;
        }
        proof {
            assert(entry_pairs(self.entries@).take(n as int) =~= entry_pairs(self.entries@));
        }
        out
    }
}

/// Rendering is deterministic: the document is a function of the profile name
/// and the entry pairs alone, so equal inputs give byte-identical output.
pub proof fn lemma_render_deterministic(
    p1: Seq<char>,
    e1: Seq<(Seq<char>, Seq<char>)>,
    p2: Seq<char>,
    e2: Seq<(Seq<char>, Seq<char>)>,
)
    requires
        p1 == p2,
        e1 == e2,
    ensures
        spec_render(p1, e1) == spec_render(p2, e2),
{
}

} // verus!
