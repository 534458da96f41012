//! The `FileLog` XML of the regression tool: the detection parameters and,
//! per frame, the markers found. Floating-point fields arrive already
//! formatted as text; this module lays out the document.

use vstd::prelude::*;
use vstd::string::*;
use crate::bank::{chars_of, find_char, find_in};

verus! {

/// One marker of a logged frame: its id, its status code, and further
/// fields (name, formatted value) written in order.
pub struct LoggedMarker {
    pub id: i32,
    pub status: i32,
    pub fields: Vec<(String, String)>,
}

/// One logged frame: its number, its formatted elapsed time, its markers.
pub struct LoggedFrame {
    pub frame: usize,
    pub elapsed: String,
    pub markers: Vec<LoggedMarker>,
}

/// Text of a decimal digit.
pub open spec fn digit_text(d: nat) -> Seq<char> {
    if d == 0 {
        "0"@
    } else if d == 1 {
        "1"@
    } else if d == 2 {
        "2"@
    } else if d == 3 {
        "3"@
    } else if d == 4 {
        "4"@
    } else if d == 5 {
        "5"@
    } else if d == 6 {
        "6"@
    } else if d == 7 {
        "7"@
    } else if d == 8 {
        "8"@
    } else {
        "9"@
    }
}

/// Decimal text of `n`, without leading zeros.
pub open spec fn dec_nat(n: nat) -> Seq<char>
    decreases n,
{
    if n < 10 {
        digit_text(n)
    } else {
        dec_nat(n / 10) + digit_text(n % 10)
    }
}

/// Decimal text of `i`, with a `-` when negative.
pub open spec fn dec_int(i: int) -> Seq<char> {
    if i < 0 {
        "-"@ + dec_nat((-i) as nat)
    } else {
        dec_nat(i as nat)
    }
}

/// The pairs of strings as text pairs.
pub open spec fn kv_view(v: Seq<(String, String)>) -> Seq<(Seq<char>, Seq<char>)> {
    v.map_values(|p: (String, String)| (p.0@, p.1@))
}

/// `indent<k>v</k>` and a line feed.
pub open spec fn tag_line(indent: Seq<char>, k: Seq<char>, v: Seq<char>) -> Seq<char> {
    indent + "<"@ + k + ">"@ + v + "</"@ + k + ">\n"@
}

/// One tag line per pair, in order.
pub open spec fn tag_lines(indent: Seq<char>, kv: Seq<(Seq<char>, Seq<char>)>) -> Seq<char>
    decreases kv.len(),
{
    if kv.len() == 0 {
        seq![]
    } else {
        tag_lines(indent, kv.drop_last()) + tag_line(indent, kv.last().0, kv.last().1)
    }
}

/// A marker entry; the first marker written to the log carries the class
/// header of the marker type.
pub open spec fn marker_text(first: bool, m: LoggedMarker) -> Seq<char> {
    (if first {
        "\t\t\t\t<item class_id=\"5\" tracking_level=\"0\" version=\"0\">\n"@
    } else {
        "\t\t\t\t<item>\n"@
    }) + "\t\t\t\t\t<id>"@ + dec_int(m.id as int) + "</id>\n"@ + "\t\t\t\t\t<status>"@ + dec_int(
        m.status as int,
    ) + "</status>\n"@ + tag_lines("\t\t\t\t\t"@, kv_view(m.fields@)) + "\t\t\t\t</item>\n"@
}

/// The marker entries of a frame (`none_before`: no marker was written in
/// an earlier frame).
pub open spec fn markers_text(none_before: bool, ms: Seq<LoggedMarker>) -> Seq<char>
    decreases ms.len(),
{
    if ms.len() == 0 {
        seq![]
    } else {
        markers_text(none_before, ms.drop_last()) + marker_text(
            none_before && ms.len() == 1,
            ms.last(),
        )
    }
}

/// Number of markers over the frames.
pub open spec fn marker_count(fs: Seq<LoggedFrame>) -> nat
    decreases fs.len(),
{
    if fs.len() == 0 {
        0
    } else {
        marker_count(fs.drop_last()) + fs.last().markers@.len()
    }
}

/// The opening of a frame entry, up to its markers; the first frame
/// carries the class headers of the frame and tag-list types.
pub open spec fn frame_head(first: bool, f: LoggedFrame) -> Seq<char> {
    (if first {
        "\t\t<item class_id=\"3\" tracking_level=\"0\" version=\"0\">\n"@
    } else {
        "\t\t<item>\n"@
    }) + "\t\t\t<frame>"@ + dec_nat(f.frame as nat) + "</frame>\n"@ + "\t\t\t<elapsedTime>"@
        + f.elapsed@ + "</elapsedTime>\n"@ + (if first {
        "\t\t\t<tags class_id=\"4\" tracking_level=\"0\" version=\"0\">\n"@
    } else {
        "\t\t\t<tags>\n"@
    }) + "\t\t\t\t<count>"@ + dec_nat(f.markers@.len()) + "</count>\n"@
        + "\t\t\t\t<item_version>0</item_version>\n"@
}

/// A frame entry (`none_before`: no marker was written in an earlier frame).
pub open spec fn frame_text(first: bool, none_before: bool, f: LoggedFrame) -> Seq<char> {
    frame_head(first, f) + markers_text(none_before, f.markers@) + "\t\t\t</tags>\n\t\t</item>\n"@
}

/// The frame entries, in order.
pub open spec fn frames_text(fs: Seq<LoggedFrame>) -> Seq<char>
    decreases fs.len(),
{
    if fs.len() == 0 {
        seq![]
    } else {
        frames_text(fs.drop_last()) + frame_text(
            fs.len() == 1,
            marker_count(fs.drop_last()) == 0,
            fs.last(),
        )
    }
}

/// Everything before the file name.
pub open spec fn log_head() -> Seq<char> {
    "<?xml version=\"1.0\" encoding=\"UTF-8\" standalone=\"yes\" ?>\n<!DOCTYPE boost_serialization>\n<boost_serialization signature=\"serialization::archive\" version=\"20\">\n<FileLog class_id=\"0\" tracking_level=\"0\" version=\"0\">\n\t<filename>"@
}

/// From the file name to the parameters.
pub open spec fn log_params_open() -> Seq<char> {
    "</filename>\n\t<parameters class_id=\"1\" tracking_level=\"0\" version=\"0\">\n"@
}

/// From the parameters to the frame count.
pub open spec fn log_frames_open() -> Seq<char> {
    "\t</parameters>\n\t<frameLogs class_id=\"2\" tracking_level=\"0\" version=\"0\">\n\t\t<count>"@
}

/// From the frame count to the frames.
pub open spec fn log_count_close() -> Seq<char> {
    "</count>\n\t\t<item_version>0</item_version>\n"@
}

/// After the frames.
pub open spec fn log_tail() -> Seq<char> {
    "\t</frameLogs>\n</FileLog>\n</boost_serialization>\n"@
}

/// The whole document.
pub open spec fn filelog_text(
    filename: Seq<char>,
    params: Seq<(Seq<char>, Seq<char>)>,
    frames: Seq<LoggedFrame>,
) -> Seq<char> {
    log_head() + filename + log_params_open() + tag_lines("\t\t"@, params) + log_frames_open()
        + dec_nat(frames.len()) + log_count_close() + frames_text(frames) + log_tail()
}

fn digit_str(d: u64) -> (s: &'static str)
    requires
        d < 10,
    ensures
        s@ == digit_text(d as nat),
{
    if d == 0 {
        "0"
    } else if d == 1 {
        "1"
    } else if d == 2 {
        "2"
    } else if d == 3 {
        "3"
    } else if d == 4 {
        "4"
    } else if d == 5 {
        "5"
    } else if d == 6 {
        "6"
    } else if d == 7 {
        "7"
    } else if d == 8 {
        "8"
    } else {
        "9"
    }
}

fn push_dec(out: &mut String, n: u64)
    ensures
        final(out)@ == old(out)@ + dec_nat(n as nat),
    decreases n,
{
    if n >= 10 {
        push_dec(out, n / 10);
    }
    out.append(digit_str(n % 10));
    assert(out@ =~= old(out)@ + dec_nat(n as nat));
}

fn push_int(out: &mut String, v: i32)
    ensures
        final(out)@ == old(out)@ + dec_int(v as int),
{
    if v < 0 {
        out.append("-");
        let m = (0i64 - v as i64) as u64;
        push_dec(out, m);
        assert(out@ =~= old(out)@ + dec_int(v as int));
    } else {
        push_dec(out, v as u64);
    }
}

fn push_tag_line(out: &mut String, indent: &str, k: &str, v: &str)
    ensures
        final(out)@ == old(out)@ + tag_line(indent@, k@, v@),
{
    out.append(indent);
    out.append("<");
    out.append(k);
    out.append(">");
    out.append(v);
    out.append("</");
    out.append(k);
    out.append(">\n");
    assert(out@ =~= old(out)@ + tag_line(indent@, k@, v@));
}

fn push_tag_lines(out: &mut String, indent: &str, kv: &[(String, String)])
    ensures
        final(out)@ == old(out)@ + tag_lines(indent@, kv_view(kv@)),
{
    let ghost all = kv_view(kv@);
    let mut i: usize = 0;
    while i < kv.len()
        invariant
            i <= kv@.len(),
            all == kv_view(kv@),
            out@ == old(out)@ + tag_lines(indent@, all.take(i as int)),
        decreases kv@.len() - i,
    {
        push_tag_line(out, indent, kv[i].0.as_str(), kv[i].1.as_str());
        proof {
            assert(all.take(i + 1).drop_last() =~= all.take(i as int));
            assert(all[i as int] == (kv@[i as int].0@, kv@[i as int].1@));
            assert(out@ =~= old(out)@ + tag_lines(indent@, all.take(i + 1)));
        }
        i = i + 1;
    }
    assert(all.take(kv@.len() as int) =~= all);
}

fn push_marker(out: &mut String, first: bool, m: &LoggedMarker)
    ensures
        final(out)@ == old(out)@ + marker_text(first, *m),
{
    if first {
        out.append("\t\t\t\t<item class_id=\"5\" tracking_level=\"0\" version=\"0\">\n");
    } else {
        out.append("\t\t\t\t<item>\n");
    }
    out.append("\t\t\t\t\t<id>");
    push_int(out, m.id);
    out.append("</id>\n");
    out.append("\t\t\t\t\t<status>");
    push_int(out, m.status);
    out.append("</status>\n");
    push_tag_lines(out, "\t\t\t\t\t", m.fields.as_slice());
    out.append("\t\t\t\t</item>\n");
    assert(out@ =~= old(out)@ + marker_text(first, *m));
}

fn push_frame_head(out: &mut String, first: bool, f: &LoggedFrame)
    ensures
        final(out)@ == old(out)@ + frame_head(first, *f),
{
    if first {
        out.append("\t\t<item class_id=\"3\" tracking_level=\"0\" version=\"0\">\n");
    } else {
        out.append("\t\t<item>\n");
    }
    out.append("\t\t\t<frame>");
    push_dec(out, f.frame as u64);
    out.append("</frame>\n");
    out.append("\t\t\t<elapsedTime>");
    out.append(f.elapsed.as_str());
    out.append("</elapsedTime>\n");
    if first {
        out.append("\t\t\t<tags class_id=\"4\" tracking_level=\"0\" version=\"0\">\n");
    } else {
        out.append("\t\t\t<tags>\n");
    }
    out.append("\t\t\t\t<count>");
    push_dec(out, f.markers.len() as u64);
    out.append("</count>\n");
    out.append("\t\t\t\t<item_version>0</item_version>\n");
    assert(out@ =~= old(out)@ + frame_head(first, *f));
}

fn push_frame(out: &mut String, first: bool, none_before: bool, f: &LoggedFrame)
    ensures
        final(out)@ == old(out)@ + frame_text(first, none_before, *f),
{
    push_frame_head(out, first, f);
    let ghost mid = out@;
    let mut i: usize = 0;
    while i < f.markers.len()
        invariant
            i <= f.markers@.len(),
            out@ == mid + markers_text(none_before, f.markers@.take(i as int)),
        decreases f.markers@.len() - i,
    {
        push_marker(out, none_before && i == 0, &f.markers[i]);
        proof {
            let t = f.markers@.take(i + 1);
            assert(t.drop_last() =~= f.markers@.take(i as int));
            assert(out@ =~= mid + markers_text(none_before, t));
        }
        i = i + 1;
    }
    assert(f.markers@.take(f.markers@.len() as int) =~= f.markers@);
    out.append("\t\t\t</tags>\n\t\t</item>\n");
    assert(out@ =~= old(out)@ + frame_text(first, none_before, *f));
}

/// The `FileLog` document for `filename`: the parameters as name/value
/// lines, then every frame with its markers. Only the first frame and the
/// first marker written (in whichever frame it is) carry the `class_id`
/// headers of their types.
pub fn write_filelog(filename: &str, params: &[(String, String)], frames: &[LoggedFrame]) -> (out: String)
    ensures
        out@ == filelog_text(filename@, kv_view(params@), frames@),
{
    let mut out = String::new();
    out.append("<?xml version=\"1.0\" encoding=\"UTF-8\" standalone=\"yes\" ?>\n<!DOCTYPE boost_serialization>\n<boost_serialization signature=\"serialization::archive\" version=\"20\">\n<FileLog class_id=\"0\" tracking_level=\"0\" version=\"0\">\n\t<filename>");
    out.append(filename);
    out.append("</filename>\n\t<parameters class_id=\"1\" tracking_level=\"0\" version=\"0\">\n");
    push_tag_lines(&mut out, "\t\t", params);
    out.append("\t</parameters>\n\t<frameLogs class_id=\"2\" tracking_level=\"0\" version=\"0\">\n\t\t<count>");
    push_dec(&mut out, frames.len() as u64);
    out.append("</count>\n\t\t<item_version>0</item_version>\n");
    let ghost mid = out@;
    let mut none_yet = true;
    let mut i: usize = 0;
    while i < frames.len()
        invariant
            i <= frames@.len(),
            out@ == mid + frames_text(frames@.take(i as int)),
            none_yet == (marker_count(frames@.take(i as int)) == 0),
        decreases frames@.len() - i,
    {
        push_frame(&mut out, i == 0, none_yet, &frames[i]);
        proof {
            let t = frames@.take(i + 1);
            assert(t.drop_last() =~= frames@.take(i as int));
            assert(out@ =~= mid + frames_text(t));
        }
        none_yet = none_yet && frames[i].markers.len() == 0;
        i = i + 1;
    }
    assert(frames@.take(frames@.len() as int) =~= frames@);
    out.append("\t</frameLogs>\n</FileLog>\n</boost_serialization>\n");
    assert(out@ =~= filelog_text(filename@, kv_view(params@), frames@));
    out
}

/// `d` padded on the left with `0` to at least two characters.
pub open spec fn pad2(d: Seq<char>) -> Seq<char> {
    if d.len() >= 2 {
        d
    } else if d.len() == 1 {
        "0"@ + d
    } else {
        "00"@
    }
}

/// Scientific text with its exponent written the way the log expects:
/// split at the first `e`, the exponent gets an explicit sign (`-` kept,
/// `+` added otherwise) and at least two digits.
pub open spec fn boost_exponent_text(t: Seq<char>) -> Seq<char> {
    let i = find_char(t, 'e');
    let e = t.skip(i + 1int);
    if e.len() > 0 && e[0] == '-' {
        t.take(i as int) + "e"@ + "-"@ + pad2(e.drop_first())
    } else {
        t.take(i as int) + "e"@ + "+"@ + pad2(e)
    }
}

/// Normalise the exponent of scientific text (`9.999999776e-3` becomes
/// `9.999999776e-03`, `1.5e2` becomes `1.5e+02`).
pub fn boost_exponent(sci: &str) -> (out: String)
    requires
        find_char(sci@, 'e') < sci@.len(),
    ensures
        out@ == boost_exponent_text(sci@),
{
    let t = chars_of(sci);
    let n = t.len();
    let i = find_in(&t, 0, n, 'e');
    proof {
        assert(t@.subrange(0, n as int) =~= t@);
    }
    let mut out = String::from_str(sci.substring_char(0, i));
    out.append("e");
    let mut start = i + 1;
    if start < n && t[start] == '-' {
        out.append("-");
        start = start + 1;
    } else {
        out.append("+");
    }
    let digits = sci.substring_char(start, n);
    if n - start == 0 {
        out.append("00");
    } else if n - start == 1 {
        out.append("0");
        out.append(digits);
    } else {
        out.append(digits);
    }
    proof {
        let e = sci@.skip(i + 1);
        if e.len() > 0 && e[0] == '-' {
            assert(e.drop_first() =~= sci@.subrange(start as int, n as int));
        } else {
            assert(e =~= sci@.subrange(start as int, n as int));
        }
        assert(out@ =~= boost_exponent_text(sci@));
    }
    out
}

} // verus!
