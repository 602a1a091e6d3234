//! The texts of the informational commands: the system report, the list of
//! stored models and the description of a model.

use vstd::prelude::*;
use vstd::string::*;
use crate::numfmt::{pretty_bytes, pretty_bytes_text, pretty_seconds, pretty_seconds_text};
use crate::models::MARKOV_CHAINS_VERSION;
use crate::text::{chars_of, decimal, decimal_string, push_chars};

verus! {

/// What the system report shows; every value is read from the machine by
/// the caller.
pub struct SystemReport {
    pub name: Option<String>,
    pub kernel: Option<String>,
    pub os_version: Option<String>,
    pub host_name: Option<String>,
    /// Seconds since boot.
    pub uptime: u64,
    pub cpus: usize,
    /// Bytes.
    pub used_memory: u64,
    pub total_memory: u64,
    pub used_swap: u64,
    pub total_swap: u64,
    /// The bot's own version.
    pub bot_version: String,
}

/// A value, or `N/A` when there is none.
pub open spec fn or_not_available(value: Option<String>) -> Seq<char> {
    match value {
        Some(v) => v@,
        None => "N/A"@,
    }
}

/// A labelled value: the label, the value, and a closing back-quote.
pub open spec fn labelled(label: Seq<char>, value: Seq<char>) -> Seq<char> {
    label + value + "`"@
}

/// A labelled pair such as used / total.
pub open spec fn labelled_pair(label: Seq<char>, first: Seq<char>, second: Seq<char>) -> Seq<char> {
    label + first + "`\t**/**\t`"@ + second + "`"@
}

/// The lines of the system part of the report, each after a bullet.
pub open spec fn system_lines(r: SystemReport) -> Seq<Seq<char>> {
    seq![
        labelled("**Name:**\t`"@, or_not_available(r.name)),
        labelled("**Kernel:**\t`"@, or_not_available(r.kernel)),
        labelled("**Version:**\t`"@, or_not_available(r.os_version)),
        labelled("**Hostname:**\t`"@, or_not_available(r.host_name)),
        labelled("**Uptime:**\t`"@, pretty_seconds_text(r.uptime as nat)),
        labelled("**CPUs:**\t`"@, decimal(r.cpus as nat)),
        labelled_pair(
            "**Memory:**\t`"@,
            pretty_bytes_text(r.used_memory as nat),
            pretty_bytes_text(r.total_memory as nat),
        ),
        labelled_pair(
            "**Swap:**\t`"@,
            pretty_bytes_text(r.used_swap as nat),
            pretty_bytes_text(r.total_swap as nat),
        ),
    ]
}

/// The lines of the package part of the report.
pub open spec fn package_lines(r: SystemReport) -> Seq<Seq<char>> {
    seq![
        labelled("**markov-chains-bot:**\t`"@, r.bot_version@),
        labelled("**markov-chains:**\t`"@, MARKOV_CHAINS_VERSION@),
    ]
}

/// The text of the system report.
pub open spec fn system_report_text(r: SystemReport) -> Seq<char> {
    "## System\n- "@ + join(system_lines(r), "\n- "@) + "\n## Package\n- "@ + join(
        package_lines(r),
        "\n- "@,
    )
}

/// A value, or `N/A` when there is none.
fn or_not_available_string(value: &Option<String>) -> (s: String)
    ensures
        s@ == or_not_available(*value),
{
    match value {
        Some(v) => v.clone(),
        None => String::from_str("N/A"),
    }
}

/// A labelled value.
fn labelled_string(label: &str, value: &str) -> (s: String)
    ensures
        s@ == labelled(label@, value@),
{
    let mut out = String::from_str(label);
    out.append(value);
    out.append("`");
    out
}

/// A labelled pair.
fn labelled_pair_string(label: &str, first: &str, second: &str) -> (s: String)
    ensures
        s@ == labelled_pair(label@, first@, second@),
{
    let mut out = String::from_str(label);
    out.append(first);
    out.append("`\t**/**\t`");
    out.append(second);
    out.append("`");
    out
}

/// The system report: name, kernel, version and host name of the system
/// (`N/A` when unknown), its uptime, CPU count, memory and swap use, and the
/// versions of the bot and of the Markov-chain format.
pub fn system_report(r: &SystemReport) -> (text: String)
    ensures
        text@ == system_report_text(*r),
        text@ == "## System\n- "@ + "**Name:**\t`"@ + or_not_available(r.name) + "`"@ + "\n- "@
            + "**Kernel:**\t`"@ + or_not_available(r.kernel) + "`"@ + "\n- "@ + "**Version:**\t`"@
            + or_not_available(r.os_version) + "`"@ + "\n- "@ + "**Hostname:**\t`"@
            + or_not_available(r.host_name) + "`"@ + "\n- "@ + "**Uptime:**\t`"@
            + pretty_seconds_text(r.uptime as nat) + "`"@ + "\n- "@ + "**CPUs:**\t`"@ + decimal(
            r.cpus as nat,
        ) + "`"@ + "\n- "@ + "**Memory:**\t`"@ + pretty_bytes_text(r.used_memory as nat)
            + "`\t**/**\t`"@ + pretty_bytes_text(r.total_memory as nat) + "`"@ + "\n- "@
            + "**Swap:**\t`"@ + pretty_bytes_text(r.used_swap as nat) + "`\t**/**\t`"@
            + pretty_bytes_text(r.total_swap as nat) + "`"@ + "\n## Package\n- "@
            + "**markov-chains-bot:**\t`"@ + r.bot_version@ + "`"@ + "\n- "@ + "**markov-chains:**\t`"@
            + MARKOV_CHAINS_VERSION@ + "`"@,
{
    proof {
        law_system_report_fields(*r);
    }
    let mut system: Vec<String> = Vec::new();
    system.push(labelled_string("**Name:**\t`", or_not_available_string(&r.name).as_str()));
    system.push(labelled_string("**Kernel:**\t`", or_not_available_string(&r.kernel).as_str()));
    system.push(labelled_string("**Version:**\t`", or_not_available_string(&r.os_version).as_str()));
    system.push(labelled_string("**Hostname:**\t`", or_not_available_string(&r.host_name).as_str()));
    system.push(labelled_string("**Uptime:**\t`", pretty_seconds(r.uptime).as_str()));
    system.push(labelled_string("**CPUs:**\t`", decimal_string(r.cpus as u128).as_str()));
    system.push(
        labelled_pair_string(
            "**Memory:**\t`",
            pretty_bytes(r.used_memory).as_str(),
            pretty_bytes(r.total_memory).as_str(),
        ),
    );
    system.push(
        labelled_pair_string(
            "**Swap:**\t`",
            pretty_bytes(r.used_swap).as_str(),
            pretty_bytes(r.total_swap).as_str(),
        ),
    );
    let mut package: Vec<String> = Vec::new();
    package.push(labelled_string("**markov-chains-bot:**\t`", r.bot_version.as_str()));
    package.push(labelled_string("**markov-chains:**\t`", MARKOV_CHAINS_VERSION));
    proof {
        assert(system@.map_values(|p: String| p@) =~= system_lines(*r));
        assert(package@.map_values(|p: String| p@) =~= package_lines(*r));
    }
    let mut out = String::new();
    out.append("## System\n- ");
    push_joined(&mut out, &system, "\n- ");
    out.append("\n## Package\n- ");
    push_joined(&mut out, &package, "\n- ");
    proof {
        assert(out@ =~= system_report_text(*r));
    }
    out
}

/// Joining one more text adds the separator and that text.
proof fn lemma_join_push(parts: Seq<Seq<char>>, x: Seq<char>, sep: Seq<char>)
    requires
        parts.len() > 0,
    ensures
        join(parts.push(x), sep) == join(parts, sep) + sep + x,
{
    assert(parts.push(x).drop_last() =~= parts);
}

/// The system report shows, each on its own labelled bullet and in this
/// order, the system's name, its kernel, its version and its host name (each
/// `N/A` when unknown), the uptime, the CPU count, used and total memory,
/// used and total swap, then the bot's version and the chain format's.
pub proof fn law_system_report_fields(r: SystemReport)
    ensures
        system_report_text(r) == "## System\n- "@ + "**Name:**\t`"@ + or_not_available(r.name) + "`"@
            + "\n- "@ + "**Kernel:**\t`"@ + or_not_available(r.kernel) + "`"@ + "\n- "@
            + "**Version:**\t`"@ + or_not_available(r.os_version) + "`"@ + "\n- "@
            + "**Hostname:**\t`"@ + or_not_available(r.host_name) + "`"@ + "\n- "@
            + "**Uptime:**\t`"@ + pretty_seconds_text(r.uptime as nat) + "`"@ + "\n- "@
            + "**CPUs:**\t`"@ + decimal(r.cpus as nat) + "`"@ + "\n- "@ + "**Memory:**\t`"@
            + pretty_bytes_text(r.used_memory as nat) + "`\t**/**\t`"@ + pretty_bytes_text(
            r.total_memory as nat,
        ) + "`"@ + "\n- "@ + "**Swap:**\t`"@ + pretty_bytes_text(r.used_swap as nat)
            + "`\t**/**\t`"@ + pretty_bytes_text(r.total_swap as nat) + "`"@ + "\n## Package\n- "@
            + "**markov-chains-bot:**\t`"@ + r.bot_version@ + "`"@ + "\n- "@
            + "**markov-chains:**\t`"@ + MARKOV_CHAINS_VERSION@ + "`"@,
{
    let sep = "\n- "@;
    let pre = "## System\n- "@;
    let l = system_lines(r);
    let s1 = seq![l[0]];
    assert(join(s1, sep) == l[0]);
    lemma_append_three(pre, "**Name:**\t`"@, or_not_available(r.name), "`"@);
    let s2 = s1.push(l[1]);
    lemma_join_after(pre, s1, l[1], sep);
    lemma_append_three(pre + join(s1, sep) + sep, "**Kernel:**\t`"@, or_not_available(r.kernel), "`"@);
    let s3 = s2.push(l[2]);
    lemma_join_after(pre, s2, l[2], sep);
    lemma_append_three(pre + join(s2, sep) + sep, "**Version:**\t`"@, or_not_available(r.os_version), "`"@);
    let s4 = s3.push(l[3]);
    lemma_join_after(pre, s3, l[3], sep);
    lemma_append_three(pre + join(s3, sep) + sep, "**Hostname:**\t`"@, or_not_available(r.host_name), "`"@);
    let s5 = s4.push(l[4]);
    lemma_join_after(pre, s4, l[4], sep);
    lemma_append_three(pre + join(s4, sep) + sep, "**Uptime:**\t`"@, pretty_seconds_text(r.uptime as nat), "`"@);
    let s6 = s5.push(l[5]);
    lemma_join_after(pre, s5, l[5], sep);
    lemma_append_three(pre + join(s5, sep) + sep, "**CPUs:**\t`"@, decimal(r.cpus as nat), "`"@);
    let s7 = s6.push(l[6]);
    lemma_join_after(pre, s6, l[6], sep);
    lemma_append_five(
        pre + join(s6, sep) + sep,
        "**Memory:**\t`"@,
        pretty_bytes_text(r.used_memory as nat),
        "`\t**/**\t`"@,
        pretty_bytes_text(r.total_memory as nat),
        "`"@,
    );
    let s8 = s7.push(l[7]);
    lemma_join_after(pre, s7, l[7], sep);
    lemma_append_five(
        pre + join(s7, sep) + sep,
        "**Swap:**\t`"@,
        pretty_bytes_text(r.used_swap as nat),
        "`\t**/**\t`"@,
        pretty_bytes_text(r.total_swap as nat),
        "`"@,
    );
    assert(s8 =~= l);
    let p = package_lines(r);
    let q1 = seq![p[0]];
    assert(join(q1, sep) == p[0]);
    lemma_join_push(q1, p[1], sep);
    assert(q1.push(p[1]) =~= p);
    let head = pre + join(l, sep) + "\n## Package\n- "@;
    lemma_append_three(head, "**markov-chains-bot:**\t`"@, r.bot_version@, "`"@);
    lemma_join_after(head, q1, p[1], sep);
    lemma_append_three(head + p[0] + sep, "**markov-chains:**\t`"@, MARKOV_CHAINS_VERSION@, "`"@);
    lemma_concat_after(pre + join(l, sep), "\n## Package\n- "@, join(p, sep));
}

/// Appending a text made of three parts appends the parts in turn.
proof fn lemma_append_three(a: Seq<char>, b: Seq<char>, c: Seq<char>, d: Seq<char>)
    ensures
        a + (b + c + d) == a + b + c + d,
{
    assert(a + (b + c + d) =~= a + b + c + d);
}

/// Appending a text made of five parts appends the parts in turn.
proof fn lemma_append_five(a: Seq<char>, b: Seq<char>, c: Seq<char>, d: Seq<char>, e: Seq<char>, f: Seq<char>)
    ensures
        a + (b + c + d + e + f) == a + b + c + d + e + f,
{
    assert(a + (b + c + d + e + f) =~= a + b + c + d + e + f);
}

/// Appending two texts one after the other is appending them together.
proof fn lemma_concat_after(a: Seq<char>, b: Seq<char>, c: Seq<char>)
    ensures
        a + b + c == a + (b + c),
{
    assert(a + b + c =~= a + (b + c));
}

/// Behind a prefix, joining one more text adds the separator and that text.
proof fn lemma_join_after(prefix: Seq<char>, parts: Seq<Seq<char>>, x: Seq<char>, sep: Seq<char>)
    requires
        parts.len() > 0,
    ensures
        prefix + join(parts.push(x), sep) == prefix + join(parts, sep) + sep + x,
{
    lemma_join_push(parts, x, sep);
    assert(prefix + (join(parts, sep) + sep + x) =~= prefix + join(parts, sep) + sep + x);
}

/// The extension that model files of an older layout carry.
pub open spec fn model_extension() -> Seq<char> {
    seq!['.', 'm', 'o', 'd', 'e', 'l']
}

/// `s` without any number of trailing copies of `suffix`, as
/// `str::trim_end_matches` gives it.
pub open spec fn strip_suffixes(s: Seq<char>, suffix: Seq<char>) -> Seq<char>
    decreases s.len(),
{
    if suffix.len() > 0 && s.len() >= suffix.len() && s.skip(s.len() - suffix.len()) == suffix {
        strip_suffixes(s.take(s.len() - suffix.len()), suffix)
    } else {
        s
    }
}

/// `count` copies of `x`, one after the other.
pub open spec fn copies(x: Seq<char>, count: nat) -> Seq<char>
    decreases count,
{
    if count == 0 {
        seq![]
    } else {
        copies(x, (count - 1) as nat) + x
    }
}

/// Whether `s` ends with `suffix`.
pub open spec fn ends_with(s: Seq<char>, suffix: Seq<char>) -> bool {
    s.len() >= suffix.len() && s.skip(s.len() - suffix.len()) == suffix
}

/// Removing every trailing copy of a (nonempty) suffix leaves a text that
/// does not end with it, and the text removed is nothing but copies of it.
pub proof fn law_strip_suffixes(s: Seq<char>, suffix: Seq<char>)
    requires
        suffix.len() > 0,
    ensures
        !ends_with(strip_suffixes(s, suffix), suffix),
        exists|count: nat| s == strip_suffixes(s, suffix) + copies(suffix, count),
    decreases s.len(),
{
    if s.len() >= suffix.len() && s.skip(s.len() - suffix.len()) == suffix {
        let rest = s.take(s.len() - suffix.len());
        law_strip_suffixes(rest, suffix);
        let r = strip_suffixes(rest, suffix);
        let count = choose|count: nat| rest == r + copies(suffix, count);
        assert(copies(suffix, count + 1) == copies(suffix, count) + suffix);
        assert(s =~= rest + suffix);
        assert(s =~= r + copies(suffix, count + 1));
    } else {
        assert(s =~= s + copies(suffix, 0));
    }
}

/// The line of the model list for a model.
pub open spec fn model_line_text(name: Seq<char>, size: nat) -> Seq<char> {
    "**Name:**\t`"@ + strip_suffixes(name, model_extension()) + "`\t**Size:**\t`"@
        + pretty_bytes_text(size) + "`"@
}

/// Whether `s` ends with `suffix` (a nonempty one).
fn ends_with_at(s: &Vec<char>, len: usize, suffix: &Vec<char>) -> (b: bool)
    requires
        len <= s.len(),
    ensures
        b == (suffix.len() > 0 && len >= suffix.len() && s@.take(len as int).skip(
            len - suffix.len(),
        ) == suffix@),
{
    if suffix.len() == 0 || len < suffix.len() {
        return false;
    }
    let start = len - suffix.len();
    let mut i: usize = 0;
    while i < suffix.len()
        invariant
            i <= suffix.len(),
            start + suffix.len() == len <= s.len(),
            forall|j: int| 0 <= j < i ==> s@[start + j] == suffix@[j],
        decreases suffix.len() - i,
    {
        if s[start + i] != suffix[i] {
            proof {
                assert(s@.take(len as int).skip(start as int)[i as int] != suffix@[i as int]);
            }
            return false;
        }
        i = i + 1;
    }
    proof {
        assert(s@.take(len as int).skip(start as int) =~= suffix@);
    }
    true
}

/// The name of a stored model as the list shows it: any trailing `.model`
/// extensions removed.
pub fn strip_model_extension(name: &str) -> (r: Vec<char>)
    ensures
        r@ == strip_suffixes(name@, model_extension()),
        !ends_with(r@, model_extension()),
        exists|count: nat| name@ == r@ + copies(model_extension(), count),
{
    proof {
        law_strip_suffixes(name@, model_extension());
    }
    let chars = chars_of(name);
    let mut ext: Vec<char> = Vec::new();
    ext.push('.');
    ext.push('m');
    ext.push('o');
    ext.push('d');
    ext.push('e');
    ext.push('l');
    proof {
        assert(ext@ =~= model_extension());
        assert(chars@.take(chars.len() as int) =~= chars@);
    }
    let mut len = chars.len();
    while ends_with_at(&chars, len, &ext)
        invariant
            len <= chars.len(),
            ext@ == model_extension(),
            strip_suffixes(name@, model_extension()) == strip_suffixes(chars@.take(len as int), model_extension()),
            chars@ == name@,
        decreases len,
    {
        proof {
            assert(chars@.take(len as int).take(len - 6) =~= chars@.take(len - 6));
        }
        len = len - 6;
    }
    let mut r: Vec<char> = Vec::new();
    let mut i: usize = 0;
    while i < len
        invariant
            i <= len <= chars.len(),
            r@ == chars@.take(i as int),
        decreases len - i,
    {
        proof {
            assert(chars@.take(i + 1) =~= chars@.take(i as int).push(chars@[i as int]));
        }
        r.push(chars[i]);
        i = i + 1;
    }
    r
}

/// The line of the model list for a stored model: its name without the
/// `.model` extension, and the size of its file.
pub fn model_line(name: &str, size: u64) -> (line: String)
    ensures
        line@ == model_line_text(name@, size as nat),
{
    let mut out = String::new();
    out.append("**Name:**\t`");
    let stripped = strip_model_extension(name);
    push_chars(&mut out, &stripped);
    out.append("`\t**Size:**\t`");
    let size_text = pretty_bytes(size);
    out.append(size_text.as_str());
    out.append("`");
    proof {
        assert(out@ =~= model_line_text(name@, size as nat));
    }
    out
}

/// The texts joined with a separator between consecutive ones.
pub open spec fn join(parts: Seq<Seq<char>>, sep: Seq<char>) -> Seq<char>
    decreases parts.len(),
{
    if parts.len() == 0 {
        seq![]
    } else if parts.len() == 1 {
        parts[0]
    } else {
        join(parts.drop_last(), sep) + sep + parts.last()
    }
}

/// Appends the texts joined with a separator.
fn push_joined(out: &mut String, parts: &Vec<String>, sep: &str)
    ensures
        final(out)@ == old(out)@ + join(parts@.map_values(|p: String| p@), sep@),
{
    let ghost all = parts@.map_values(|p: String| p@);
    let mut i: usize = 0;
    proof {
        assert(all.take(0) =~= Seq::<Seq<char>>::empty());
        assert(old(out)@ + join(all.take(0), sep@) =~= old(out)@);
    }
    while i < parts.len()
        invariant
            i <= parts.len(),
            all == parts@.map_values(|p: String| p@),
            out@ == old(out)@ + join(all.take(i as int), sep@),
        decreases parts.len() - i,
    {
        proof {
            assert(all.take(i + 1).drop_last() =~= all.take(i as int));
            assert(all.take(i + 1).last() == parts@[i as int]@);
        }
        if i > 0 {
            out.append(sep);
        } else {
            proof {
                assert(all.take(1) =~= seq![parts@[0]@]);
            }
        }
        out.append(parts[i].as_str());
        proof {
            assert(out@ =~= old(out)@ + join(all.take(i + 1), sep@));
        }
        i = i + 1;
    }
    proof {
        assert(all.take(parts.len() as int) =~= all);
    }
}

/// The model list: a heading and one bullet per line.
pub open spec fn model_list_text(lines: Seq<Seq<char>>) -> Seq<char> {
    "## Available models:\n- "@ + join(lines, "\n- "@)
}

/// The model list, from the lines of the stored models.
pub fn model_list(lines: &Vec<String>) -> (text: String)
    ensures
        text@ == model_list_text(lines@.map_values(|l: String| l@)),
{
    let mut out = String::new();
    out.append("## Available models:\n- ");
    push_joined(&mut out, lines, "\n- ");
    out
}

/// What the model description shows.  The averages and varieties are
/// fractional and come formatted by the caller (four decimals); the chain
/// kinds a model was built without have none.
pub struct ModelInfo {
    /// The model's headers, as (key, value), in the order given.
    pub headers: Vec<(String, String)>,
    pub total_tokens: usize,
    pub trigram_chains: Option<usize>,
    pub bigram_chains: Option<usize>,
    pub unigram_chains: usize,
    pub avg_trigram_paths: Option<String>,
    pub avg_bigram_paths: Option<String>,
    pub avg_unigram_paths: String,
    pub trigram_variety: Option<String>,
    pub bigram_variety: Option<String>,
    pub unigram_variety: String,
}

/// A count, or `N/A` when there is none.
pub open spec fn count_or_not_available(value: Option<usize>) -> Seq<char> {
    match value {
        Some(v) => decimal(v as nat),
        None => "N/A"@,
    }
}

/// The bullet of a model header.
pub open spec fn header_line(key: Seq<char>, value: Seq<char>) -> Seq<char> {
    "- **"@ + key + ":**\t`"@ + value + "`"@
}

/// A labelled triple of values for the trigram, bigram and unigram chains.
pub open spec fn labelled_triple(label: Seq<char>, a: Seq<char>, b: Seq<char>, c: Seq<char>) -> Seq<char> {
    label + a + "`\t/\t`"@ + b + "`\t/\t`"@ + c + "`"@
}

/// The bullets of the model statistics.
pub open spec fn model_stat_lines(m: ModelInfo) -> Seq<Seq<char>> {
    seq![
        labelled("- **Total Tokens:**\t`"@, decimal(m.total_tokens as nat)),
        labelled_triple(
            "- **Chains:**\t`"@,
            count_or_not_available(m.trigram_chains),
            count_or_not_available(m.bigram_chains),
            decimal(m.unigram_chains as nat),
        ),
        labelled_triple(
            "- **Avg Paths:**\t`"@,
            or_not_available(m.avg_trigram_paths),
            or_not_available(m.avg_bigram_paths),
            m.avg_unigram_paths@,
        ),
        labelled_triple(
            "- **Variety:**\t`"@,
            or_not_available(m.trigram_variety),
            or_not_available(m.bigram_variety),
            m.unigram_variety@,
        ),
    ]
}

/// The text of the model description.
pub open spec fn model_info_text(m: ModelInfo) -> Seq<char> {
    "## Headers\n"@ + join(
        m.headers@.map_values(|h: (String, String)| header_line(h.0@, h.1@)),
        "\n"@,
    ) + "\n## Model Info\n"@ + join(model_stat_lines(m), "\n"@)
}

/// The model description shows its headers, then on labelled bullets in
/// this order the token count, the chain counts, the average paths and the
/// varieties, each of the last three for trigram, bigram and unigram chains
/// in that order (`N/A` for chain kinds the model lacks).
pub proof fn law_model_info_fields(m: ModelInfo)
    ensures
        model_info_text(m) == "## Headers\n"@ + join(
            m.headers@.map_values(|h: (String, String)| header_line(h.0@, h.1@)),
            "\n"@,
        ) + "\n## Model Info\n"@ + "- **Total Tokens:**\t`"@ + decimal(m.total_tokens as nat) + "`"@
            + "\n"@ + "- **Chains:**\t`"@ + count_or_not_available(m.trigram_chains) + "`\t/\t`"@
            + count_or_not_available(m.bigram_chains) + "`\t/\t`"@ + decimal(m.unigram_chains as nat)
            + "`"@ + "\n"@ + "- **Avg Paths:**\t`"@ + or_not_available(m.avg_trigram_paths)
            + "`\t/\t`"@ + or_not_available(m.avg_bigram_paths) + "`\t/\t`"@ + m.avg_unigram_paths@
            + "`"@ + "\n"@ + "- **Variety:**\t`"@ + or_not_available(m.trigram_variety) + "`\t/\t`"@
            + or_not_available(m.bigram_variety) + "`\t/\t`"@ + m.unigram_variety@ + "`"@,
{
    let sep = "\n"@;
    let pre = "## Headers\n"@ + join(
        m.headers@.map_values(|h: (String, String)| header_line(h.0@, h.1@)),
        "\n"@,
    ) + "\n## Model Info\n"@;
    let l = model_stat_lines(m);
    let mid = "`\t/\t`"@;
    let s1 = seq![l[0]];
    assert(join(s1, sep) == l[0]);
    lemma_append_three(pre, "- **Total Tokens:**\t`"@, decimal(m.total_tokens as nat), "`"@);
    let s2 = s1.push(l[1]);
    lemma_join_after(pre, s1, l[1], sep);
    lemma_append_seven(
        pre + join(s1, sep) + sep,
        "- **Chains:**\t`"@,
        count_or_not_available(m.trigram_chains),
        mid,
        count_or_not_available(m.bigram_chains),
        mid,
        decimal(m.unigram_chains as nat),
        "`"@,
    );
    let s3 = s2.push(l[2]);
    lemma_join_after(pre, s2, l[2], sep);
    lemma_append_seven(
        pre + join(s2, sep) + sep,
        "- **Avg Paths:**\t`"@,
        or_not_available(m.avg_trigram_paths),
        mid,
        or_not_available(m.avg_bigram_paths),
        mid,
        m.avg_unigram_paths@,
        "`"@,
    );
    let s4 = s3.push(l[3]);
    lemma_join_after(pre, s3, l[3], sep);
    lemma_append_seven(
        pre + join(s3, sep) + sep,
        "- **Variety:**\t`"@,
        or_not_available(m.trigram_variety),
        mid,
        or_not_available(m.bigram_variety),
        mid,
        m.unigram_variety@,
        "`"@,
    );
    assert(s4 =~= l);
}

/// Appending a text made of seven parts appends the parts in turn.
proof fn lemma_append_seven(
    a: Seq<char>,
    b: Seq<char>,
    c: Seq<char>,
    d: Seq<char>,
    e: Seq<char>,
    f: Seq<char>,
    g: Seq<char>,
    h: Seq<char>,
)
    ensures
        a + (b + c + d + e + f + g + h) == a + b + c + d + e + f + g + h,
{
    assert(a + (b + c + d + e + f + g + h) =~= a + b + c + d + e + f + g + h);
}

/// A count, or `N/A`.
fn count_or_not_available_string(value: Option<usize>) -> (s: String)
    ensures
        s@ == count_or_not_available(value),
{
    match value {
        Some(v) => decimal_string(v as u128),
        None => String::from_str("N/A"),
    }
}

/// A labelled triple.
fn labelled_triple_string(label: &str, a: &str, b: &str, c: &str) -> (s: String)
    ensures
        s@ == labelled_triple(label@, a@, b@, c@),
{
    let mut out = String::from_str(label);
    out.append(a);
    out.append("`\t/\t`");
    out.append(b);
    out.append("`\t/\t`");
    out.append(c);
    out.append("`");
    out
}

/// The model description: its headers, token count, chain counts, average
/// paths and varieties (`N/A` for chain kinds the model lacks).
pub fn model_info(m: &ModelInfo) -> (text: String)
    ensures
        text@ == model_info_text(*m),
        text@ == "## Headers\n"@ + join(
            m.headers@.map_values(|h: (String, String)| header_line(h.0@, h.1@)),
            "\n"@,
        ) + "\n## Model Info\n"@ + "- **Total Tokens:**\t`"@ + decimal(m.total_tokens as nat) + "`"@
            + "\n"@ + "- **Chains:**\t`"@ + count_or_not_available(m.trigram_chains) + "`\t/\t`"@
            + count_or_not_available(m.bigram_chains) + "`\t/\t`"@ + decimal(m.unigram_chains as nat)
            + "`"@ + "\n"@ + "- **Avg Paths:**\t`"@ + or_not_available(m.avg_trigram_paths)
            + "`\t/\t`"@ + or_not_available(m.avg_bigram_paths) + "`\t/\t`"@ + m.avg_unigram_paths@
            + "`"@ + "\n"@ + "- **Variety:**\t`"@ + or_not_available(m.trigram_variety) + "`\t/\t`"@
            + or_not_available(m.bigram_variety) + "`\t/\t`"@ + m.unigram_variety@ + "`"@,
{
    proof {
        law_model_info_fields(*m);
    }
    let mut headers: Vec<String> = Vec::new();
    let mut i: usize = 0;
    while i < m.headers.len()
        invariant
            i <= m.headers.len(),
            headers.len() == i,
            forall|j: int| 0 <= j < i ==> (#[trigger] headers@[j])@ == header_line(
                m.headers@[j].0@,
                m.headers@[j].1@,
            ),
        decreases m.headers.len() - i,
    {
        let mut line = String::from_str("- **");
        line.append(m.headers[i].0.as_str());
        line.append(":**\t`");
        line.append(m.headers[i].1.as_str());
        line.append("`");
        headers.push(line);
        i = i + 1;
    }
    let mut stats: Vec<String> = Vec::new();
    stats.push(labelled_string("- **Total Tokens:**\t`", decimal_string(m.total_tokens as u128).as_str()));
    stats.push(
        labelled_triple_string(
            "- **Chains:**\t`",
            count_or_not_available_string(m.trigram_chains).as_str(),
            count_or_not_available_string(m.bigram_chains).as_str(),
            decimal_string(m.unigram_chains as u128).as_str(),
        ),
    );
    stats.push(
        labelled_triple_string(
            "- **Avg Paths:**\t`",
            or_not_available_string(&m.avg_trigram_paths).as_str(),
            or_not_available_string(&m.avg_bigram_paths).as_str(),
            m.avg_unigram_paths.as_str(),
        ),
    );
    stats.push(
        labelled_triple_string(
            "- **Variety:**\t`",
            or_not_available_string(&m.trigram_variety).as_str(),
            or_not_available_string(&m.bigram_variety).as_str(),
            m.unigram_variety.as_str(),
        ),
    );
    proof {
        assert(headers@.map_values(|p: String| p@) =~= m.headers@.map_values(
            |h: (String, String)| header_line(h.0@, h.1@),
        ));
        assert(stats@.map_values(|p: String| p@) =~= model_stat_lines(*m));
    }
    let mut out = String::from_str("## Headers\n");
    push_joined(&mut out, &headers, "\n");
    out.append("\n## Model Info\n");
    push_joined(&mut out, &stats, "\n");
    proof {
        assert(out@ =~= model_info_text(*m));
    }
    out
}

} // verus!
