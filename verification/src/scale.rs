//! The size of the encoded video, from the scale setting and the captured
//! size.

use vstd::prelude::*;

use crate::text;
use crate::text::{chars_of, has_prefix, parse_i32, position_from, string_of_range};

verus! {

/// What a scale setting asks for.
#[derive(Debug, Clone, Copy, PartialEq, Eq, Structural)]
pub enum ScaleRule {
    /// This height, and the width that keeps the aspect ratio.
    Height(u32),
    /// This width, and the height that keeps the aspect ratio.
    Width(u32),
    /// The captured size as it is.
    Keep,
}

/// The two fields of a setting `scale=<width>:<height>`, as far as they are
/// numbers; none where the setting has another form.
pub open spec fn scale_fields(scale: Seq<char>) -> Option<(Option<int>, Option<int>)> {
    let rest = scale.skip("scale="@.len() as int);
    let colon = text::next_position(rest, ':', 0);
    if "scale="@.is_prefix_of(scale) && colon < rest.len() && text::next_position(
        rest,
        ':',
        colon + 1,
    ) == rest.len() {
        Some((text::parsed_i32(rest.take(colon)), text::parsed_i32(rest.skip(colon + 1))))
    } else {
        None
    }
}

/// What a scale setting asks for: of the two fields, one is positive and the
/// other is -2 or -1; anything else keeps the size.
pub open spec fn scale_rule(scale: Seq<char>) -> ScaleRule {
    match scale_fields(scale) {
        Some((Some(w), Some(h))) => if (w == -2 || w == -1) && h > 0 {
            ScaleRule::Height(h as u32)
        } else if w > 0 && (h == -2 || h == -1) {
            ScaleRule::Width(w as u32)
        } else {
            ScaleRule::Keep
        },
        _ => ScaleRule::Keep,
    }
}

/// Reads a scale setting.
pub fn parse_scale(scale: &str) -> (rule: ScaleRule)
    ensures
        rule == scale_rule(scale@),
{
    proof {
        reveal_strlit("scale=");
    }
    if !has_prefix(scale, "scale=") {
        return ScaleRule::Keep;
    }
    let chars = chars_of(scale);
    let ghost rest = scale@.skip(6);
    let colon: usize = position_from(&chars, ':', 6);
    proof {
        text::lemma_position_in_suffix(scale@, ':', 6, 6);
    }
    if colon == chars.len() {
        return ScaleRule::Keep;
    }
    let second: usize = position_from(&chars, ':', colon + 1);
    proof {
        text::lemma_position_in_suffix(scale@, ':', 6, colon + 1);
    }
    if second != chars.len() {
        return ScaleRule::Keep;
    }
    let first_field = string_of_range(&chars, 6, colon);
    let second_field = string_of_range(&chars, colon + 1, chars.len());
    assert(first_field@ =~= rest.take(colon - 6));
    assert(second_field@ =~= rest.skip(colon - 6 + 1));
    match (parse_i32(first_field.as_str()), parse_i32(second_field.as_str())) {
        (Some(w), Some(h)) => {
            if (w == -2 || w == -1) && h > 0 {
                ScaleRule::Height(h as u32)
            } else if w > 0 && (h == -2 || h == -1) {
                ScaleRule::Width(w as u32)
            } else {
                ScaleRule::Keep
            }
        },
        _ => ScaleRule::Keep,
    }
}

/// The side that keeps the aspect ratio, rounded down: `across * target /
/// along`.
pub open spec fn scaled_side(across: u32, target: u32, along: u32) -> int {
    across * target / along as int
}

/// The nearest even number that is not below `n`.
pub open spec fn even_up(n: int) -> int {
    n + n % 2
}

/// Whether a rule gives a size: there is a ratio to keep, and the side
/// rounded up fits in 32 bits.
pub open spec fn rule_applies(rule: ScaleRule, src_w: u32, src_h: u32) -> bool {
    match rule {
        ScaleRule::Height(th) => src_h > 0 && scaled_side(src_w, th, src_h) < u32::MAX,
        ScaleRule::Width(tw) => src_w > 0 && scaled_side(src_h, tw, src_w) < u32::MAX,
        ScaleRule::Keep => true,
    }
}

/// The size that a rule gives.
pub open spec fn scaled(rule: ScaleRule, src_w: u32, src_h: u32) -> (int, int) {
    match rule {
        ScaleRule::Height(th) => (even_up(scaled_side(src_w, th, src_h)), th as int),
        ScaleRule::Width(tw) => (tw as int, even_up(scaled_side(src_h, tw, src_w))),
        ScaleRule::Keep => (src_w as int, src_h as int),
    }
}

/// The side that keeps the aspect ratio, rounded down.
fn side(across: u32, target: u32, along: u32) -> (raw: u64)
    requires
        along > 0,
    ensures
        raw == scaled_side(across, target, along),
{
    assert(0 <= across * target <= u32::MAX * u32::MAX) by (nonlinear_arith)
        requires
            across <= u32::MAX,
            target <= u32::MAX,
    ;
    across as u64 * target as u64 / along as u64
}

/// The even number that `n` is rounded up to.
fn round_even(n: u32) -> (r: u32)
    requires
        n < u32::MAX,
    ensures
        r == even_up(n as int),
{
    assert((((n + 1) as u32) & !1u32) == n + n % 2) by (bit_vector)
        requires
            n < u32::MAX,
    ;
    (n + 1) & !1u32
}

/// Whether a scale setting gives a size for a captured size.
pub fn output_dims_exist(scale: &str, src_w: u32, src_h: u32) -> (r: bool)
    ensures
        r == rule_applies(scale_rule(scale@), src_w, src_h),
{
    match parse_scale(scale) {
        ScaleRule::Height(th) => src_h > 0 && side(src_w, th, src_h) < u32::MAX as u64,
        ScaleRule::Width(tw) => src_w > 0 && side(src_h, tw, src_w) < u32::MAX as u64,
        ScaleRule::Keep => true,
    }
}

/// The size of the encoded video: what the scale setting asks for, with the
/// aspect ratio kept and the side that follows from it rounded up to an even
/// number.
pub fn compute_output_dims(scale: &str, src_w: u32, src_h: u32) -> (dims: (u32, u32))
    requires
        rule_applies(scale_rule(scale@), src_w, src_h),
    ensures
        (dims.0 as int, dims.1 as int) == scaled(scale_rule(scale@), src_w, src_h),
{
    match parse_scale(scale) {
        ScaleRule::Height(th) => (round_even(side(src_w, th, src_h) as u32), th),
        ScaleRule::Width(tw) => (tw, round_even(side(src_h, tw, src_w) as u32)),
        ScaleRule::Keep => (src_w, src_h),
    }
}

// ---------------------------------------------------------------------------
// Laws
// ---------------------------------------------------------------------------

/// The side that follows from the aspect ratio is even, and the other side is
/// the one that was asked for.
pub proof fn law_scaled_side_is_even(rule: ScaleRule, src_w: u32, src_h: u32)
    ensures
        rule matches ScaleRule::Height(th) ==> scaled(rule, src_w, src_h).0 % 2 == 0 && scaled(
            rule,
            src_w,
            src_h,
        ).1 == th,
        rule matches ScaleRule::Width(tw) ==> scaled(rule, src_w, src_h).1 % 2 == 0 && scaled(
            rule,
            src_w,
            src_h,
        ).0 == tw,
{
}

/// The aspect ratio is kept to within one pixel of the side that follows
/// from it.
pub proof fn law_aspect_ratio_is_kept(rule: ScaleRule, src_w: u32, src_h: u32)
    requires
        rule_applies(rule, src_w, src_h),
    ensures
        rule matches ScaleRule::Height(th) ==> src_w * th - src_h < scaled(rule, src_w, src_h).0
            * src_h <= src_w * th + src_h,
        rule matches ScaleRule::Width(tw) ==> src_h * tw - src_w < scaled(rule, src_w, src_h).1
            * src_w <= src_h * tw + src_w,
{
    match rule {
        ScaleRule::Height(th) => lemma_ratio(src_w, th, src_h),
        ScaleRule::Width(tw) => lemma_ratio(src_h, tw, src_w),
        ScaleRule::Keep => {},
    }
}

proof fn lemma_ratio(across: u32, target: u32, along: u32)
    requires
        along > 0,
    ensures
        across * target - along < even_up(scaled_side(across, target, along)) * along <= across
            * target + along,
{
    let n = across * target;
    let d = along as int;
    assert(n >= 0) by (nonlinear_arith)
        requires
            n == across * target,
    ;
    let q = n / d;
    assert(q >= 0 && q * d <= n < q * d + d) by (nonlinear_arith)
        requires
            q == n / d,
            d > 0,
            n >= 0,
    ;
    let e = even_up(q);
    assert(q * d <= e * d <= q * d + d) by (nonlinear_arith)
        requires
            q <= e <= q + 1,
            d > 0,
    ;
}

/// A setting has two fields where it is `scale=`, a text, a colon and another
/// text, and each is the number that it writes; with another beginning, without
/// a colon or with more than one it has none.
pub proof fn law_fields_are_read(width: Seq<char>, height: Seq<char>, more: Seq<char>)
    requires
        !width.contains(':'),
        !height.contains(':'),
    ensures
        scale_fields("scale="@ + width + seq![':'] + height) == Some(
            (text::parsed_i32(width), text::parsed_i32(height)),
        ),
        scale_fields("scale="@ + width) is None,
        scale_fields("scale="@ + width + seq![':'] + height + seq![':'] + more) is None,
        !"scale="@.is_prefix_of(more) ==> scale_fields(more) is None,
{
    reveal_strlit("scale=");
    let prefix = "scale="@;
    let n = width.len() as int;
    let m = height.len() as int;

    let s = prefix + width + seq![':'] + height;
    let rest = s.skip(6);
    assert(rest =~= width + seq![':'] + height);
    lemma_first_colon(width, seq![':'] + height);
    assert(width + (seq![':'] + height) =~= rest);
    assert forall|k: int| n + 1 <= k < rest.len() implies rest[k] != ':' by {
        assert(height.contains(height[k - n - 1]));
    }
    text::lemma_next_position(rest, ':', n + 1, rest.len() as int);
    assert(s.take(6) =~= prefix);
    assert(rest.take(n) =~= width);
    assert(rest.skip(n + 1) =~= height);

    let one = prefix + width;
    let only = one.skip(6);
    assert(only =~= width);
    assert forall|k: int| 0 <= k < only.len() implies only[k] != ':' by {
        assert(width.contains(width[k]));
    }
    text::lemma_next_position(only, ':', 0, only.len() as int);

    let three = prefix + width + seq![':'] + height + seq![':'] + more;
    let fields = three.skip(6);
    lemma_first_colon(width, seq![':'] + height + seq![':'] + more);
    assert(width + (seq![':'] + height + seq![':'] + more) =~= fields);
    assert forall|k: int| n + 1 <= k < n + 1 + m implies fields[k] != ':' by {
        assert(height.contains(height[k - n - 1]));
    }
    assert(fields[n + 1 + m] == ':');
    text::lemma_next_position(fields, ':', n + 1, n + 1 + m);
}

proof fn lemma_first_colon(front: Seq<char>, rest: Seq<char>)
    requires
        !front.contains(':'),
        rest.len() > 0,
        rest[0] == ':',
    ensures
        text::next_position(front + rest, ':', 0) == front.len(),
{
    let s = front + rest;
    assert forall|k: int| 0 <= k < front.len() implies s[k] != ':' by {
        assert(front.contains(front[k]));
    }
    text::lemma_next_position(s, ':', 0, front.len() as int);
}

/// A number in one field and -2 or -1 in the other ask for that height or that
/// width; two numbers, or none, keep the size.
pub proof fn law_setting_asks_for_a_side(n: nat, m: nat)
    requires
        0 < n <= i32::MAX,
        0 < m <= i32::MAX,
    ensures
        scale_rule("scale="@ + "-2"@ + seq![':'] + text::decimal(n)) == ScaleRule::Height(n as u32),
        scale_rule("scale="@ + "-1"@ + seq![':'] + text::decimal(n)) == ScaleRule::Height(n as u32),
        scale_rule("scale="@ + text::decimal(n) + seq![':'] + "-2"@) == ScaleRule::Width(n as u32),
        scale_rule("scale="@ + text::decimal(n) + seq![':'] + "-1"@) == ScaleRule::Width(n as u32),
        scale_rule("scale="@ + text::decimal(n) + seq![':'] + text::decimal(m)) == ScaleRule::Keep,
        scale_rule("scale="@ + "-2"@ + seq![':'] + "-2"@) == ScaleRule::Keep,
{
    reveal_strlit("-2");
    reveal_strlit("-1");
    reveal_strlit("scale=");
    let (two, one) = ("-2"@, "-1"@);
    assert(text::decimal(2) =~= seq!['2']);
    assert(text::decimal(1) =~= seq!['1']);
    assert(two =~= seq!['-'] + text::decimal(2));
    assert(one =~= seq!['-'] + text::decimal(1));
    text::law_number_is_read_back(2, 0);
    text::law_number_is_read_back(1, 0);
    text::law_number_is_read_back(n, 0);
    text::law_number_is_read_back(m, 0);
    lemma_no_colon(n);
    lemma_no_colon(m);
    assert(!two.contains(':') && !one.contains(':'));
    law_fields_are_read(two, text::decimal(n), seq![]);
    law_fields_are_read(one, text::decimal(n), seq![]);
    law_fields_are_read(text::decimal(n), two, seq![]);
    law_fields_are_read(text::decimal(n), one, seq![]);
    law_fields_are_read(text::decimal(n), text::decimal(m), seq![]);
    law_fields_are_read(two, two, seq![]);
}

proof fn lemma_no_colon(n: nat)
    ensures
        !text::decimal(n).contains(':'),
{
    text::law_decimal_writes_the_number(n);
    if text::decimal(n).contains(':') {
        let i = choose|i: int| 0 <= i < text::decimal(n).len() && text::decimal(n)[i] == ':';
        assert('0' <= text::decimal(n)[i] <= '9');
    }
}

/// A setting in any other form keeps the size.
pub proof fn law_other_settings_keep_the_size(setting: Seq<char>, src_w: u32, src_h: u32)
    requires
        scale_fields(setting) is None,
    ensures
        scale_rule(setting) == ScaleRule::Keep,
        scaled(scale_rule(setting), src_w, src_h) == (src_w as int, src_h as int),
        rule_applies(scale_rule(setting), src_w, src_h),
{
}

/// A side is found for every source that has one, up to the largest that can
/// be held.
pub proof fn law_sizes_that_fit_are_given(rule: ScaleRule, src_w: u32, src_h: u32)
    ensures
        rule matches ScaleRule::Height(th) ==> (rule_applies(rule, src_w, src_h) <==> src_h > 0
            && src_w * th < u32::MAX * src_h),
        rule matches ScaleRule::Width(tw) ==> (rule_applies(rule, src_w, src_h) <==> src_w > 0
            && src_h * tw < u32::MAX * src_w),
        rule is Keep ==> rule_applies(rule, src_w, src_h) && scaled(rule, src_w, src_h) == (
            src_w as int,
            src_h as int,
        ),
{
    match rule {
        ScaleRule::Height(th) => lemma_side_fits(src_w, th, src_h),
        ScaleRule::Width(tw) => lemma_side_fits(src_h, tw, src_w),
        ScaleRule::Keep => {},
    }
}

proof fn lemma_side_fits(across: u32, target: u32, along: u32)
    ensures
        along > 0 ==> (scaled_side(across, target, along) < u32::MAX <==> across * target < u32::MAX
            * along),
{
    if along > 0 {
        let n = across * target;
        let d = along as int;
        let q = n / d;
        assert(n >= 0) by (nonlinear_arith)
            requires
                n == across * target,
        ;
        assert(q * d <= n < q * d + d) by (nonlinear_arith)
            requires
                q == n / d,
                d > 0,
                n >= 0,
        ;
        let max = u32::MAX as int;
        assert(q < max <==> n < max * d) by (nonlinear_arith)
            requires
                q * d <= n < q * d + d,
                d > 0,
        ;
    }
}

} // verus!
