//! Vanilla structure templates: the summary of one and how to place it.

use vstd::prelude::*;
use crate::level::{line, opt_chars, opt_i32, opt_int_chars, opt_int_text, opt_string, opt_text, string_views};
use crate::mc_version::DEFAULT_DATA_VERSION;
use crate::text::{append_str, chars_of, int_text, nat_text, push_int, push_nat, string_from, string_of};

verus! {

/// What a structure file says.
#[derive(Clone, Debug)]
pub struct StructureInfo {
    pub path: String,
    pub size: [i32; 3],
    pub blocks: usize,
    pub entities: usize,
    pub palette: usize,
    pub data_version: Option<i32>,
    pub author: Option<String>,
}

/// How to place a structure.
#[derive(Clone, Copy, Debug, Default)]
pub struct PlaceOptions {
    /// Yaw degrees: 0 / 90 / 180 / 270 (clockwise looking down).
    pub rotation: i32,
    /// Mirror axis: None / Some('x') / Some('z').
    pub mirror: Option<char>,
    pub include_entities: bool,
}

impl StructureInfo {
    /// One `key=value` line per field.
    pub fn lines(&self) -> (r: Vec<String>)
        ensures
            string_views(r@) == seq![
                "structure="@ + self.path@,
                "size="@ + int_text(self.size@[0] as int) + "x"@ + int_text(self.size@[1] as int)
                    + "x"@ + int_text(self.size@[2] as int),
                "blocks="@ + nat_text(self.blocks as nat),
                "entities="@ + nat_text(self.entities as nat),
                "palette="@ + nat_text(self.palette as nat),
                "DataVersion="@ + opt_int_text(opt_i32(self.data_version)),
                "author="@ + opt_text(opt_string(self.author)),
            ],
    {
        let mut out: Vec<String> = Vec::new();
        out.push(line("structure=", &crate::text::chars_of(self.path.as_str())));
        let mut sz: Vec<char> = Vec::new();
        push_int(&mut sz, self.size[0] as i64);
        sz.push('x');
        push_int(&mut sz, self.size[1] as i64);
        sz.push('x');
        push_int(&mut sz, self.size[2] as i64);
        out.push(line("size=", &sz));
        let mut b: Vec<char> = Vec::new();
        push_nat(&mut b, self.blocks as u64);
        out.push(line("blocks=", &b));
        let mut e: Vec<char> = Vec::new();
        push_nat(&mut e, self.entities as u64);
        out.push(line("entities=", &e));
        let mut p: Vec<char> = Vec::new();
        push_nat(&mut p, self.palette as u64);
        out.push(line("palette=", &p));
        let dv = match self.data_version {
            Some(v) => Some(v as i64),
            None => None,
        };
        out.push(line("DataVersion=", &opt_int_chars(dv)));
        out.push(line("author=", &opt_chars(&self.author)));
        proof {
            reveal_strlit("x");
            assert(string_views(out@)[1] =~= "size="@ + int_text(self.size@[0] as int) + "x"@
                + int_text(self.size@[1] as int) + "x"@ + int_text(self.size@[2] as int));
            assert(string_views(out@)[2] =~= "blocks="@ + nat_text(self.blocks as nat));
            assert(string_views(out@)[3] =~= "entities="@ + nat_text(self.entities as nat));
            assert(string_views(out@)[4] =~= "palette="@ + nat_text(self.palette as nat));
            assert(string_views(out@)[5] =~= "DataVersion="@ + opt_int_text(opt_i32(self.data_version)));
        }
        assert(string_views(out@) =~= seq![
            "structure="@ + self.path@,
            "size="@ + int_text(self.size@[0] as int) + "x"@ + int_text(self.size@[1] as int) + "x"@
                + int_text(self.size@[2] as int),
            "blocks="@ + nat_text(self.blocks as nat),
            "entities="@ + nat_text(self.entities as nat),
            "palette="@ + nat_text(self.palette as nat),
            "DataVersion="@ + opt_int_text(opt_i32(self.data_version)),
            "author="@ + opt_text(opt_string(self.author)),
        ]);
        out
    }
}

/// DataVersion written into new structure files.
pub fn default_structure_data_version() -> (r: i32)
    ensures
        r == DEFAULT_DATA_VERSION,
{
    DEFAULT_DATA_VERSION
}

/// The structure records of a chunk: its starts (name and `id`, when the id
/// is text) and its references (name and how many chunks the list holds,
/// when it is a list). `None` where the compound is missing.
#[derive(Clone, Debug)]
pub struct ChunkStructures {
    pub starts: Option<Vec<(String, Option<String>)>>,
    pub references: Option<Vec<(String, Option<usize>)>>,
}

pub open spec fn start_line(e: (String, Option<String>)) -> Seq<char> {
    "  start "@ + e.0@ + " id="@ + match e.1 {
        Some(id) => id@,
        None => "-"@,
    }
}

pub open spec fn ref_line(e: (String, Option<usize>)) -> Seq<char> {
    "  ref "@ + e.0@ + " chunks="@ + nat_text(
        match e.1 {
            Some(n) => n as nat,
            None => 0,
        },
    )
}

/// The summary lines of a chunk's structure records: a count line and one
/// line per start, then the same for references; a single marker line when
/// the chunk has no structures compound or it holds neither.
pub open spec fn structure_summary_spec(st: Option<ChunkStructures>) -> Seq<Seq<char>> {
    match st {
        None => seq!["structures=(none)"@],
        Some(c) => {
            let a = match c.starts {
                Some(v) => seq!["starts="@ + nat_text(v@.len())] + v@.map_values(
                    |e: (String, Option<String>)| start_line(e),
                ),
                None => seq![],
            };
            let b = match c.references {
                Some(v) => seq!["References="@ + nat_text(v@.len())] + v@.map_values(
                    |e: (String, Option<usize>)| ref_line(e),
                ),
                None => seq![],
            };
            if a.len() + b.len() == 0 {
                seq!["structures=(empty)"@]
            } else {
                a + b
            }
        },
    }
}

/// Summarise a chunk's structure starts and references.
pub fn chunk_structure_summary(st: Option<&ChunkStructures>) -> (r: Vec<String>)
    ensures
        string_views(r@) == structure_summary_spec(
            match st {
                Some(c) => Some(*c),
                None => None,
            },
        ),
{
    proof {
        reveal_strlit("structures=(none)");
        reveal_strlit("structures=(empty)");
        reveal_strlit("starts=");
        reveal_strlit("References=");
        reveal_strlit("  start ");
        reveal_strlit(" id=");
        reveal_strlit("-");
        reveal_strlit("  ref ");
        reveal_strlit(" chunks=");
    }
    let c = match st {
        None => {
            let r = vec![string_from("structures=(none)")];
            assert(string_views(r@) =~= seq!["structures=(none)"@]);
            return r;
        },
        Some(c) => c,
    };
    let mut lines: Vec<String> = Vec::new();
    let ghost a: Seq<Seq<char>> = seq![];
    if let Some(starts) = &c.starts {
        let mut m: Vec<char> = Vec::new();
        push_nat(&mut m, starts.len() as u64);
        lines.push(line("starts=", &m));
        let ghost head = string_views(lines@);
        let mut i: usize = 0;
        while i < starts.len()
            invariant
                i <= starts@.len(),
                string_views(lines@) == head + starts@.take(i as int).map_values(
                    |e: (String, Option<String>)| start_line(e),
                ),
            decreases starts.len() - i,
        {
            let mut t = chars_of("  start ");
            append_str(&mut t, starts[i].0.as_str());
            append_str(&mut t, " id=");
            match &starts[i].1 {
                Some(id) => append_str(&mut t, id.as_str()),
                None => append_str(&mut t, "-"),
            }
            let ghost before = string_views(lines@);
            let ln = string_of(&t);
            assert(ln@ =~= start_line(starts@[i as int]));
            lines.push(ln);
            assert(starts@.take(i + 1).map_values(|e: (String, Option<String>)| start_line(e))
                =~= starts@.take(i as int).map_values(|e: (String, Option<String>)| start_line(e)).push(
                start_line(starts@[i as int]),
            ));
            assert(string_views(lines@) =~= before.push(start_line(starts@[i as int])));
            i += 1;
        }
        assert(starts@.take(starts@.len() as int) =~= starts@);
        proof {
            a = string_views(lines@);
        }
    }
    assert(string_views(lines@) == a);
    if let Some(refs) = &c.references {
        let mut m: Vec<char> = Vec::new();
        push_nat(&mut m, refs.len() as u64);
        let ghost before0 = string_views(lines@);
        lines.push(line("References=", &m));
        assert(string_views(lines@) =~= before0.push("References="@ + nat_text(refs@.len())));
        let ghost head = string_views(lines@);
        let mut i: usize = 0;
        while i < refs.len()
            invariant
                i <= refs@.len(),
                string_views(lines@) == head + refs@.take(i as int).map_values(
                    |e: (String, Option<usize>)| ref_line(e),
                ),
            decreases refs.len() - i,
        {
            let mut t = chars_of("  ref ");
            append_str(&mut t, refs[i].0.as_str());
            append_str(&mut t, " chunks=");
            let n: usize = match refs[i].1 {
                Some(n) => n,
                None => 0,
            };
            push_nat(&mut t, n as u64);
            let ghost before = string_views(lines@);
            let ln = string_of(&t);
            assert(ln@ =~= ref_line(refs@[i as int]));
            lines.push(ln);
            assert(refs@.take(i + 1).map_values(|e: (String, Option<usize>)| ref_line(e))
                =~= refs@.take(i as int).map_values(|e: (String, Option<usize>)| ref_line(e)).push(
                ref_line(refs@[i as int]),
            ));
            assert(string_views(lines@) =~= before.push(ref_line(refs@[i as int])));
            i += 1;
        }
        assert(refs@.take(refs@.len() as int) =~= refs@);
    }
    if lines.len() == 0 {
        lines.push(string_from("structures=(empty)"));
    }
    assert(string_views(lines@) =~= structure_summary_spec(Some(*c)));
    lines
}

} // verus!
