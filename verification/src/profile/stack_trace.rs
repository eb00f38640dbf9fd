//! Pure rendering of raw stack snapshots as readable text: one block
//! per snapshot, with the thread's description, its CPU-time reading
//! and the resolved frames.  The collaborator lookups (thread info,
//! CPU time, symbol resolution) happen outside; this module only
//! formats their results.

use vstd::prelude::*;
use vstd::string::StringExecFns;
use crate::text;
use crate::thread::Thread;

verus! {

/// `"true"` or `"false"`.
pub open spec fn bool_display(b: bool) -> Seq<char> {
    if b {
        "true"@
    } else {
        "false"@
    }
}

/// The displayed CPU time: the reading in display units, or `-1` when
/// the reading failed.
pub open spec fn cpu_display(cpu: Option<i64>) -> Seq<char> {
    match cpu {
        Some(t) => text::duration_display(t as int),
        None => "-1"@,
    }
}

/// One `"Class.method()"` line per resolved frame, from position `k`
/// on.
pub open spec fn frame_lines_v(frames: Seq<(Seq<char>, Seq<char>)>, k: int) -> Seq<char>
    decreases frames.len() - k,
{
    if k < 0 || k >= frames.len() {
        Seq::empty()
    } else {
        frames[k].0 + "."@ + frames[k].1 + "()\n"@ + frame_lines_v(frames, k + 1)
    }
}

/// The block's first line, describing the raw snapshot.
pub open spec fn header_v(index: int, thread_label: Seq<char>, state_label: Seq<char>) -> Seq<
    char,
> {
    "\nstack_info: "@ + text::dec_digits(if index >= 0 {
        index as nat
    } else {
        0
    }) + ", thread: "@ + thread_label + ", state: "@ + state_label + "\n"@
}

/// The line reporting a failed CPU-time lookup, if it failed.
pub open spec fn cpu_error_line_v(cpu_error: Option<Seq<char>>) -> Seq<char> {
    match cpu_error {
        Some(e) => "get_thread_cpu_time error: "@ + e + "\n"@,
        None => Seq::<char>::empty(),
    }
}

/// The line describing the thread, or the fallback for an unknown one.
pub open spec fn thread_line_v(
    thread_info: Option<Thread>,
    thread_label: Seq<char>,
    state_label: Seq<char>,
    cpu: Option<i64>,
) -> Seq<char> {
    match thread_info {
        Some(ti) => "Thread "@ + ti.name@ + ": (id = "@ + text::dec_digits(ti.id.native_id as nat)
            + ", priority = "@ + text::dec_digits(ti.priority as nat) + ", daemon = "@
            + bool_display(ti.is_daemon) + ", state = "@ + state_label + ", cpu_time = "@
            + cpu_display(cpu) + ") \n"@,
        None => "Thread UNKNOWN ["@ + thread_label + "]: (cpu_time = "@ + cpu_display(cpu)
            + ") \n"@,
    }
}

/// The whole rendered block for one snapshot.
pub open spec fn stack_trace_block_v(
    index: int,
    thread_label: Seq<char>,
    state_label: Seq<char>,
    cpu: Option<i64>,
    cpu_error: Option<Seq<char>>,
    thread_info: Option<Thread>,
    frames: Seq<(Seq<char>, Seq<char>)>,
) -> Seq<char> {
    header_v(index, thread_label, state_label) + cpu_error_line_v(cpu_error) + thread_line_v(
        thread_info,
        thread_label,
        state_label,
        cpu,
    ) + frame_lines_v(frames, 0)
}

/// Renders one snapshot block: the snapshot's position, the thread's
/// raw label and state as the collaborator describes them, the
/// CPU-time reading (or the failure it reported instead), what is
/// known about the thread, and the resolved `(class, method)` pair of
/// each frame, innermost first.
#[verifier::rlimit(80)]
pub fn format_stack_trace(
    index: u64,
    thread_label: &String,
    state_label: &String,
    cpu: Option<i64>,
    cpu_error: &Option<String>,
    thread_info: Option<&Thread>,
    frames: &Vec<(String, String)>,
) -> (r: String)
    ensures
        r@ == stack_trace_block_v(
            index as int,
            thread_label@,
            state_label@,
            cpu,
            match cpu_error {
                Some(e) => Some(e@),
                None => None,
            },
            match thread_info {
                Some(ti) => Some(*ti),
                None => None,
            },
            frames@.map_values(|f: (String, String)| (f.0@, f.1@)),
        ),
{
    let ghost fs = frames@.map_values(|f: (String, String)| (f.0@, f.1@));
    let mut r = String::from_str("\nstack_info: ");
    r.append(text::u64_to_dec(index).as_str());
    r.append(", thread: ");
    r.append(thread_label.as_str());
    r.append(", state: ");
    r.append(state_label.as_str());
    r.append("\n");
    proof {
        assert(r@ =~= header_v(index as int, thread_label@, state_label@));
    }
    match cpu_error {
        Some(e) => {
            r.append("get_thread_cpu_time error: ");
            r.append(e.as_str());
            r.append("\n");
        },
        None => {},
    }
    let ghost err_v = match cpu_error {
        Some(e) => Some(e@),
        None => None,
    };
    proof {
        assert(r@ =~= header_v(index as int, thread_label@, state_label@) + cpu_error_line_v(
            err_v,
        ));
    }
    let cpu_text = match cpu {
        Some(t) => text::duration_to_display(t),
        None => String::from_str("-1"),
    };
    match thread_info {
        Some(ti) => {
            r.append("Thread ");
            r.append(ti.name.as_str());
            r.append(": (id = ");
            r.append(text::u64_to_dec(ti.id.native_id).as_str());
            r.append(", priority = ");
            r.append(text::u64_to_dec(ti.priority as u64).as_str());
            r.append(", daemon = ");
            if ti.is_daemon {
                r.append("true");
            } else {
                r.append("false");
            }
            r.append(", state = ");
            r.append(state_label.as_str());
            r.append(", cpu_time = ");
            r.append(cpu_text.as_str());
            r.append(") \n");
        },
        None => {
            r.append("Thread UNKNOWN [");
            r.append(thread_label.as_str());
            r.append("]: (cpu_time = ");
            r.append(cpu_text.as_str());
            r.append(") \n");
        },
    }
    let ghost info_v = match thread_info {
        Some(ti) => Some(*ti),
        None => None,
    };
    let ghost before_frames = r@;
    proof {
        assert(before_frames =~= header_v(index as int, thread_label@, state_label@)
            + cpu_error_line_v(err_v) + thread_line_v(info_v, thread_label@, state_label@, cpu));
        assert(before_frames + frame_lines_v(fs, 0) =~= stack_trace_block_v(
            index as int,
            thread_label@,
            state_label@,
            cpu,
            err_v,
            info_v,
            fs,
        ));
    }
    let mut k: usize = 0;
    while k < frames.len()
        invariant
            0 <= k <= fs.len(),
            fs == frames@.map_values(|f: (String, String)| (f.0@, f.1@)),
            fs.len() == frames@.len(),
            r@ + frame_lines_v(fs, k as int) == before_frames + frame_lines_v(fs, 0),
        decreases fs.len() - k,
    {
        let frame = &frames[k];
        r.append(frame.0.as_str());
        r.append(".");
        r.append(frame.1.as_str());
        r.append("()\n");
        k += 1;
        proof {
            assert(r@ + frame_lines_v(fs, k as int) =~= before_frames + frame_lines_v(fs, 0));
        }
    }
    proof {
        assert(r@ =~= before_frames + frame_lines_v(fs, 0));
    }
    r
}

} // verus!
