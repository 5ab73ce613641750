//! What the tool prints of a result: the lines of its description, or a JSON object.
use core::time::Duration;
use vstd::prelude::*;
use vstd::utf8::encode_utf8;

use crate::bedrock::ping::PongResponse;
use crate::cli::queries::Edition;
use crate::java::StatusResponse;
use crate::json;
use crate::json::Json;
use crate::text;

verus! {

/// What a query found out.
#[derive(Debug)]
pub enum QueryResult {
    /// A Java server's status, and the round trip if it was measured.
    Java(StatusResponse, Option<Duration>),
    /// A Bedrock server's pong.
    Bedrock(PongResponse),
}

impl QueryResult {
    /// The edition that answered.
    pub open spec fn edition_of(self) -> Edition {
        match self {
            QueryResult::Java(_, _) => Edition::Java,
            QueryResult::Bedrock(_) => Edition::Bedrock,
        }
    }

    /// The edition that answered.
    pub fn edition(&self) -> (r: Edition)
        ensures
            r == self.edition_of(),
    {
        match self {
            QueryResult::Java(_, _) => Edition::Java,
            QueryResult::Bedrock(_) => Edition::Bedrock,
        }
    }
}

/// One line of a description.
#[derive(Debug, PartialEq, Eq)]
pub enum Line {
    Version { name: String, protocol: i64 },
    Players { online: i64, max: i64 },
    Edition(String),
    Motd(String),
    SecondMotd(String),
    Favicon { len: usize },
    SecureChat(bool),
    Gamemode { name: String, numeric: u32 },
    Ports { ipv4: u16, ipv6: u16 },
    ServerGuid(i64),
    Latency(Duration),
}

/// What a [`Line`] holds.
#[verifier::ext_equal]
pub enum LineView {
    Version { name: Seq<char>, protocol: int },
    Players { online: int, max: int },
    Edition(Seq<char>),
    Motd(Seq<char>),
    SecondMotd(Seq<char>),
    Favicon { len: nat },
    SecureChat(bool),
    Gamemode { name: Seq<char>, numeric: u32 },
    Ports { ipv4: u16, ipv6: u16 },
    ServerGuid(i64),
    Latency(Duration),
}

impl View for Line {
    type V = LineView;

    open spec fn view(&self) -> LineView {
        match self {
            Line::Version { name, protocol } => LineView::Version {
                name: name@,
                protocol: *protocol as int,
            },
            Line::Players { online, max } => LineView::Players {
                online: *online as int,
                max: *max as int,
            },
            Line::Edition(s) => LineView::Edition(s@),
            Line::Motd(s) => LineView::Motd(s@),
            Line::SecondMotd(s) => LineView::SecondMotd(s@),
            Line::Favicon { len } => LineView::Favicon { len: *len as nat },
            Line::SecureChat(b) => LineView::SecureChat(*b),
            Line::Gamemode { name, numeric } => LineView::Gamemode {
                name: name@,
                numeric: *numeric,
            },
            Line::Ports { ipv4, ipv6 } => LineView::Ports { ipv4: *ipv4, ipv6: *ipv6 },
            Line::ServerGuid(g) => LineView::ServerGuid(*g),
            Line::Latency(d) => LineView::Latency(*d),
        }
    }
}

/// What a list of lines holds.
pub open spec fn line_views(lines: Seq<Line>) -> Seq<LineView> {
    lines.map_values(|l: Line| l@)
}

/// A line, or none.
pub open spec fn only_if(when: bool, line: LineView) -> Seq<LineView> {
    if when {
        seq![line]
    } else {
        seq![]
    }
}

/// The lines that describe a Java server. What the server does not say has no line.
pub open spec fn java_lines(status: StatusResponse, latency: Option<Duration>) -> Seq<LineView> {
    seq![
        LineView::Version { name: status.version.name@, protocol: status.version.protocol as int },
        LineView::Players {
            online: status.players.online as int,
            max: status.players.max as int,
        },
        LineView::Motd(status.description.plain_text()),
    ] + (match status.favicon {
        Some(f) => seq![LineView::Favicon { len: encode_utf8(f@).len() }],
        None => seq![],
    }) + (match status.enforces_secure_chat {
        Some(b) => seq![LineView::SecureChat(b)],
        None => seq![],
    }) + (match latency {
        Some(d) => seq![LineView::Latency(d)],
        None => seq![],
    })
}

/// The lines that describe a Bedrock server. A second message of the day that is empty and ports
/// that are both 0 have no line.
pub open spec fn bedrock_lines(pong: PongResponse) -> Seq<LineView> {
    seq![
        LineView::Version { name: pong.version_name@, protocol: pong.protocol_version as int },
        LineView::Players { online: pong.player_count as int, max: pong.max_players as int },
        LineView::Edition(pong.edition@),
        LineView::Motd(pong.motd@),
    ] + only_if(pong.second_motd@.len() > 0, LineView::SecondMotd(pong.second_motd@)) + seq![
        LineView::Gamemode { name: pong.gamemode@, numeric: pong.gamemode_numeric },
    ] + only_if(
        pong.port_ipv4 != 0 || pong.port_ipv6 != 0,
        LineView::Ports { ipv4: pong.port_ipv4, ipv6: pong.port_ipv6 },
    ) + seq![LineView::ServerGuid(pong.server_guid), LineView::Latency(pong.latency)]
}

/// The lines that describe a result.
pub open spec fn lines_of(res: QueryResult) -> Seq<LineView> {
    match res {
        QueryResult::Java(status, latency) => java_lines(status, latency),
        QueryResult::Bedrock(pong) => bedrock_lines(pong),
    }
}

fn put(lines: &mut Vec<Line>, line: Line)
    ensures
        line_views(final(lines)@) == line_views(old(lines)@) + seq![line@],
{
    lines.push(line);
    assert(line_views(lines@) == line_views(old(lines)@) + seq![line@]);
}

fn describe_java(status: &StatusResponse, latency: &Option<Duration>) -> (r: Vec<Line>)
    ensures
        line_views(r@) == java_lines(*status, *latency),
{
    let mut lines: Vec<Line> = Vec::new();
    assert(line_views(lines@) == Seq::<LineView>::empty());
    put(
        &mut lines,
        Line::Version {
            name: text::copy_text(status.version.name.as_str()),
            protocol: status.version.protocol as i64,
        },
    );
    put(
        &mut lines,
        Line::Players {
            online: status.players.online as i64,
            max: status.players.max as i64,
        },
    );
    put(&mut lines, Line::Motd(status.description.to_plain_text()));
    if let Some(f) = &status.favicon {
        put(&mut lines, Line::Favicon { len: f.as_str().as_bytes().len() });
    }
    if let Some(b) = status.enforces_secure_chat {
        put(&mut lines, Line::SecureChat(b));
    }
    if let Some(d) = latency {
        put(&mut lines, Line::Latency(*d));
    }
    assert(line_views(lines@) == java_lines(*status, *latency));
    lines
}

fn describe_bedrock(pong: &PongResponse) -> (r: Vec<Line>)
    ensures
        line_views(r@) == bedrock_lines(*pong),
{
    let mut lines: Vec<Line> = Vec::new();
    assert(line_views(lines@) == Seq::<LineView>::empty());
    put(
        &mut lines,
        Line::Version {
            name: text::copy_text(pong.version_name.as_str()),
            protocol: pong.protocol_version as i64,
        },
    );
    put(
        &mut lines,
        Line::Players { online: pong.player_count as i64, max: pong.max_players as i64 },
    );
    put(&mut lines, Line::Edition(text::copy_text(pong.edition.as_str())));
    put(&mut lines, Line::Motd(text::copy_text(pong.motd.as_str())));
    if !text::same_text(pong.second_motd.as_str(), "") {
        put(&mut lines, Line::SecondMotd(text::copy_text(pong.second_motd.as_str())));
    }
    put(
        &mut lines,
        Line::Gamemode {
            name: text::copy_text(pong.gamemode.as_str()),
            numeric: pong.gamemode_numeric,
        },
    );
    if pong.port_ipv4 != 0 || pong.port_ipv6 != 0 {
        put(&mut lines, Line::Ports { ipv4: pong.port_ipv4, ipv6: pong.port_ipv6 });
    }
    put(&mut lines, Line::ServerGuid(pong.server_guid));
    put(&mut lines, Line::Latency(pong.latency));
    proof {
        reveal_strlit("");
        assert(pong.second_motd@.len() > 0 <==> pong.second_motd@ != ""@) by {
            if pong.second_motd@.len() == 0 {
                assert(pong.second_motd@ == ""@);
            }
        }
        assert(line_views(lines@) == bedrock_lines(*pong));
    }
    lines
}

/// The lines that describe a result, in the order in which they are printed.
pub fn describe(res: &QueryResult) -> (r: Vec<Line>)
    ensures
        line_views(r@) == lines_of(*res),
{
    match res {
        QueryResult::Java(status, latency) => describe_java(status, latency),
        QueryResult::Bedrock(pong) => describe_bedrock(pong),
    }
}

// ==================== JSON ====================

/// The edition's name in a JSON result.
pub open spec fn json_name(edition: Edition) -> Seq<char> {
    match edition {
        Edition::Java => "Java"@,
        Edition::Bedrock => "Bedrock"@,
    }
}

/// A result as JSON, with its edition, its host and the round trip in milliseconds added.
pub open spec fn annotated(
    j: Json,
    edition: Edition,
    host: Seq<char>,
    latency_ms: Option<u64>,
) -> Json {
    match j {
        Json::Object(m) => {
            let named = m.insert("edition"@, Json::Text(json_name(edition))).insert(
                "host"@,
                Json::Text(host),
            );
            Json::Object(
                match latency_ms {
                    Some(ms) => named.insert("latency_ms"@, Json::Integer(ms as int)),
                    None => named,
                },
            )
        },
        _ => j,
    }
}

/// Adds its edition, its host and the round trip in milliseconds to a result. A value that is no
/// object stays as it is.
pub fn annotate(
    result: serde_json::Value,
    edition: Edition,
    host: &str,
    latency_ms: Option<u64>,
) -> (r: serde_json::Value)
    ensures
        json::content(r) == annotated(json::content(result), edition, host@, latency_ms),
{
    match json::into_members(result) {
        Ok(m) => {
            let mut members = m;
            let name = match edition {
                Edition::Java => json::text("Java"),
                Edition::Bedrock => json::text("Bedrock"),
            };
            json::insert_member(&mut members, "edition", name);
            json::insert_member(&mut members, "host", json::text(host));
            if let Some(ms) = latency_ms {
                json::insert_member(&mut members, "latency_ms", json::unsigned(ms));
            }
            json::object(members)
        },
        Err(same) => same,
    }
}

/// The JSON text of a result, with its edition, its host and the round trip in milliseconds added.
/// It says the same when it is read, if the result is of few levels and holds no fractions.
pub fn result_text(
    result: serde_json::Value,
    edition: Edition,
    host: &str,
    latency_ms: Option<u64>,
) -> (r: String)
    ensures
        ({
            let j = annotated(json::content(result), edition, host@, latency_ms);
            &&& r@ == json::written_pretty(j)
            &&& json::simple(j, 16) ==> json::parses_to(r@, j)
        }),
{
    match json::write_pretty(&annotate(result, edition, host, latency_ms)) {
        Ok(s) => s,
        Err(_) => String::new(),
    }
}

/// A failure as JSON.
pub open spec fn failure_json(host: Seq<char>, edition: Seq<char>, error: Seq<char>) -> Json {
    Json::Object(
        json::no_names().insert("host"@, Json::Text(host)).insert(
            "edition"@,
            Json::Text(edition),
        ).insert("error"@, Json::Text(error)),
    )
}

/// The JSON text that reports a failure; `edition` is empty where it is not known.
pub fn failure_text(host: &str, edition: &str, error: &str) -> (r: String)
    ensures
        r@ == json::written(failure_json(host@, edition@, error@)),
        json::parses_to(r@, failure_json(host@, edition@, error@)),
{
    let mut m = json::no_members();
    json::insert_member(&mut m, "host", json::text(host));
    json::insert_member(&mut m, "edition", json::text(edition));
    json::insert_member(&mut m, "error", json::text(error));
    proof {
        reveal_with_fuel(json::simple, 3);
        assert(json::simple(failure_json(host@, edition@, error@), 16));
    }
    match json::write(&json::object(m)) {
        Ok(s) => s,
        Err(_) => String::new(),
    }
}

// ==================== Laws ====================

/// What a Java server said, line by line: there is a line for each thing that the status holds, and
/// none for anything else.
pub open spec fn java_says(
    status: StatusResponse,
    latency: Option<Duration>,
    line: LineView,
) -> bool {
    match line {
        LineView::Version { name, protocol } => name == status.version.name@ && protocol
            == status.version.protocol,
        LineView::Players { online, max } => online == status.players.online && max
            == status.players.max,
        LineView::Motd(s) => s == status.description.plain_text(),
        LineView::Favicon { len } => status.favicon matches Some(f) && len == encode_utf8(
            f@,
        ).len(),
        LineView::SecureChat(b) => status.enforces_secure_chat == Some(b),
        LineView::Latency(d) => latency == Some(d),
        _ => false,
    }
}

/// What the lines of a Java result say is what the server said.
pub proof fn law_java_lines_say(status: StatusResponse, latency: Option<Duration>, line: LineView)
    ensures
        java_lines(status, latency).contains(line) <==> java_says(status, latency, line),
{
    let lines = java_lines(status, latency);
    let base = seq![
        LineView::Version { name: status.version.name@, protocol: status.version.protocol as int },
        LineView::Players { online: status.players.online as int, max: status.players.max as int },
        LineView::Motd(status.description.plain_text()),
    ];
    let a: Seq<LineView> = match status.favicon {
        Some(f) => seq![LineView::Favicon { len: encode_utf8(f@).len() }],
        None => seq![],
    };
    let b: Seq<LineView> = match status.enforces_secure_chat {
        Some(b) => seq![LineView::SecureChat(b)],
        None => seq![],
    };
    let c: Seq<LineView> = match latency {
        Some(d) => seq![LineView::Latency(d)],
        None => seq![],
    };
    assert(lines =~= base + a + b + c);
    lemma_contains(base + a + b, c, line);
    lemma_contains(base + a, b, line);
    lemma_contains(base, a, line);
    assert(base[0] is Version && base[1] is Players && base[2] is Motd);
    assert(base.contains(base[0]) && base.contains(base[1]) && base.contains(base[2]));
    if a.len() > 0 {
        assert(a.contains(a[0]));
    }
    if b.len() > 0 {
        assert(b.contains(b[0]));
    }
    if c.len() > 0 {
        assert(c.contains(c[0]));
    }
}

proof fn lemma_contains(a: Seq<LineView>, b: Seq<LineView>, line: LineView)
    ensures
        (a + b).contains(line) <==> a.contains(line) || b.contains(line),
{
    let all = a + b;
    if all.contains(line) {
        let i = choose|i: int| 0 <= i < all.len() && all[i] == line;
        if i < a.len() {
            assert(a[i] == line);
        } else {
            assert(b[i - a.len()] == line);
        }
    }
    if a.contains(line) {
        let i = choose|i: int| 0 <= i < a.len() && a[i] == line;
        assert(all[i] == line);
    }
    if b.contains(line) {
        let i = choose|i: int| 0 <= i < b.len() && b[i] == line;
        assert(all[a.len() + i] == line);
    }
}

/// The lines of a Java result determine what the server said: two results with the same lines agree
/// in the version, the player counts, the text of the message of the day, the length of the icon,
/// whether and how chat is secured, and the round trip.
pub proof fn law_java_lines_determine(
    a: StatusResponse,
    b: StatusResponse,
    a_latency: Option<Duration>,
    b_latency: Option<Duration>,
)
    requires
        java_lines(a, a_latency) == java_lines(b, b_latency),
    ensures
        a.version.name@ == b.version.name@,
        a.version.protocol == b.version.protocol,
        a.players.online == b.players.online,
        a.players.max == b.players.max,
        a.description.plain_text() == b.description.plain_text(),
        match (a.favicon, b.favicon) {
            (Some(f), Some(g)) => encode_utf8(f@).len() == encode_utf8(g@).len(),
            (None, None) => true,
            _ => false,
        },
        a.enforces_secure_chat == b.enforces_secure_chat,
        a_latency == b_latency,
{
    law_java_lines_say(
        b,
        b_latency,
        LineView::Version { name: a.version.name@, protocol: a.version.protocol as int },
    );
    law_java_lines_say(
        a,
        a_latency,
        LineView::Version { name: a.version.name@, protocol: a.version.protocol as int },
    );
    let players = LineView::Players { online: a.players.online as int, max: a.players.max as int };
    law_java_lines_say(a, a_latency, players);
    law_java_lines_say(b, b_latency, players);
    let motd = LineView::Motd(a.description.plain_text());
    law_java_lines_say(a, a_latency, motd);
    law_java_lines_say(b, b_latency, motd);
    if let Some(f) = a.favicon {
        let line = LineView::Favicon { len: encode_utf8(f@).len() };
        law_java_lines_say(a, a_latency, line);
        law_java_lines_say(b, b_latency, line);
    }
    if let Some(f) = b.favicon {
        let line = LineView::Favicon { len: encode_utf8(f@).len() };
        law_java_lines_say(a, a_latency, line);
        law_java_lines_say(b, b_latency, line);
    }
    law_java_lines_say(a, a_latency, LineView::SecureChat(true));
    law_java_lines_say(b, b_latency, LineView::SecureChat(true));
    law_java_lines_say(a, a_latency, LineView::SecureChat(false));
    law_java_lines_say(b, b_latency, LineView::SecureChat(false));
    if let Some(d) = a_latency {
        law_java_lines_say(a, a_latency, LineView::Latency(d));
        law_java_lines_say(b, b_latency, LineView::Latency(d));
    }
    if let Some(d) = b_latency {
        law_java_lines_say(a, a_latency, LineView::Latency(d));
        law_java_lines_say(b, b_latency, LineView::Latency(d));
    }
}

/// A Java result begins with the version, the players and the message of the day; what follows
/// comes in the order icon, chat, round trip, and nothing is said twice.
pub proof fn law_java_lines_order(status: StatusResponse, latency: Option<Duration>)
    ensures
        ({
            let lines = java_lines(status, latency);
            let icon: int = if status.favicon is Some {
                1
            } else {
                0
            };
            let chat: int = if status.enforces_secure_chat is Some {
                1
            } else {
                0
            };
            let trip: int = if latency is Some {
                1
            } else {
                0
            };
            &&& lines.len() == 3 + icon + chat + trip
            &&& lines[0] is Version
            &&& lines[1] is Players
            &&& lines[2] is Motd
            &&& icon == 1 ==> lines[3] is Favicon
            &&& chat == 1 ==> lines[3 + icon] is SecureChat
            &&& trip == 1 ==> lines[3 + icon + chat] is Latency
        }),
{
}

/// What a Bedrock server said, line by line. A second message of the day that is empty and ports
/// that are both 0 have no line; everything else has one.
pub open spec fn bedrock_says(pong: PongResponse, line: LineView) -> bool {
    match line {
        LineView::Version { name, protocol } => name == pong.version_name@ && protocol
            == pong.protocol_version,
        LineView::Players { online, max } => online == pong.player_count && max
            == pong.max_players,
        LineView::Edition(s) => s == pong.edition@,
        LineView::Motd(s) => s == pong.motd@,
        LineView::SecondMotd(s) => s == pong.second_motd@ && s.len() > 0,
        LineView::Gamemode { name, numeric } => name == pong.gamemode@ && numeric
            == pong.gamemode_numeric,
        LineView::Ports { ipv4, ipv6 } => ipv4 == pong.port_ipv4 && ipv6 == pong.port_ipv6
            && !(ipv4 == 0 && ipv6 == 0),
        LineView::ServerGuid(g) => g == pong.server_guid,
        LineView::Latency(d) => d == pong.latency,
        _ => false,
    }
}

/// What the lines of a Bedrock result say is what the server said.
pub proof fn law_bedrock_lines_say(pong: PongResponse, line: LineView)
    ensures
        bedrock_lines(pong).contains(line) <==> bedrock_says(pong, line),
{
    let head = seq![
        LineView::Version { name: pong.version_name@, protocol: pong.protocol_version as int },
        LineView::Players { online: pong.player_count as int, max: pong.max_players as int },
        LineView::Edition(pong.edition@),
        LineView::Motd(pong.motd@),
    ];
    let second = only_if(pong.second_motd@.len() > 0, LineView::SecondMotd(pong.second_motd@));
    let mode = seq![LineView::Gamemode { name: pong.gamemode@, numeric: pong.gamemode_numeric }];
    let ports = only_if(
        pong.port_ipv4 != 0 || pong.port_ipv6 != 0,
        LineView::Ports { ipv4: pong.port_ipv4, ipv6: pong.port_ipv6 },
    );
    let tail = seq![LineView::ServerGuid(pong.server_guid), LineView::Latency(pong.latency)];
    assert(bedrock_lines(pong) =~= head + second + mode + ports + tail);
    lemma_contains(head + second + mode + ports, tail, line);
    lemma_contains(head + second + mode, ports, line);
    lemma_contains(head + second, mode, line);
    lemma_contains(head, second, line);
    assert(head[0] is Version && head[1] is Players && head[2] is Edition && head[3] is Motd);
    assert(head.contains(head[0]) && head.contains(head[1]) && head.contains(head[2])
        && head.contains(head[3]));
    assert(mode.contains(mode[0]));
    assert(tail.contains(tail[0]) && tail.contains(tail[1]));
    if second.len() > 0 {
        assert(second.contains(second[0]));
    }
    if ports.len() > 0 {
        assert(ports.contains(ports[0]));
    }
}

/// The lines of a Bedrock result determine what the server said.
pub proof fn law_bedrock_lines_determine(a: PongResponse, b: PongResponse)
    requires
        bedrock_lines(a) == bedrock_lines(b),
    ensures
        a.version_name@ == b.version_name@,
        a.protocol_version == b.protocol_version,
        a.player_count == b.player_count,
        a.max_players == b.max_players,
        a.edition@ == b.edition@,
        a.motd@ == b.motd@,
        a.second_motd@ == b.second_motd@,
        a.gamemode@ == b.gamemode@,
        a.gamemode_numeric == b.gamemode_numeric,
        a.port_ipv4 == b.port_ipv4,
        a.port_ipv6 == b.port_ipv6,
        a.server_guid == b.server_guid,
        a.latency == b.latency,
{
    lemma_bedrock_both(
        a,
        b,
        LineView::Version { name: a.version_name@, protocol: a.protocol_version as int },
    );
    lemma_bedrock_both(
        a,
        b,
        LineView::Players { online: a.player_count as int, max: a.max_players as int },
    );
    lemma_bedrock_both(a, b, LineView::Edition(a.edition@));
    lemma_bedrock_both(a, b, LineView::Motd(a.motd@));
    lemma_bedrock_both(a, b, LineView::SecondMotd(a.second_motd@));
    lemma_bedrock_both(a, b, LineView::SecondMotd(b.second_motd@));
    if a.second_motd@.len() == 0 {
        assert(a.second_motd@ =~= b.second_motd@);
    }
    lemma_bedrock_both(
        a,
        b,
        LineView::Gamemode { name: a.gamemode@, numeric: a.gamemode_numeric },
    );
    lemma_bedrock_both(a, b, LineView::Ports { ipv4: a.port_ipv4, ipv6: a.port_ipv6 });
    lemma_bedrock_both(a, b, LineView::Ports { ipv4: b.port_ipv4, ipv6: b.port_ipv6 });
    lemma_bedrock_both(a, b, LineView::ServerGuid(a.server_guid));
    lemma_bedrock_both(a, b, LineView::Latency(a.latency));
}

proof fn lemma_bedrock_both(a: PongResponse, b: PongResponse, line: LineView)
    requires
        bedrock_lines(a) == bedrock_lines(b),
    ensures
        bedrock_says(a, line) <==> bedrock_says(b, line),
{
    law_bedrock_lines_say(a, line);
    law_bedrock_lines_say(b, line);
}

/// A Bedrock result is described in the order version, players, edition, messages of the day, game
/// mode, ports, GUID, round trip, and nothing is said twice.
pub proof fn law_bedrock_lines_order(pong: PongResponse)
    ensures
        ({
            let lines = bedrock_lines(pong);
            let second: int = if pong.second_motd@.len() > 0 {
                1
            } else {
                0
            };
            let ports: int = if pong.port_ipv4 != 0 || pong.port_ipv6 != 0 {
                1
            } else {
                0
            };
            &&& lines.len() == 7 + second + ports
            &&& lines[0] is Version
            &&& lines[1] is Players
            &&& lines[2] is Edition
            &&& lines[3] is Motd
            &&& second == 1 ==> lines[4] is SecondMotd
            &&& lines[4 + second] is Gamemode
            &&& ports == 1 ==> lines[5 + second] is Ports
            &&& lines[5 + second + ports] is ServerGuid
            &&& lines[6 + second + ports] is Latency
        }),
{
}

/// A result is described by the lines of its edition.
pub proof fn law_lines_by_edition(
    status: StatusResponse,
    latency: Option<Duration>,
    pong: PongResponse,
)
    ensures
        lines_of(QueryResult::Java(status, latency)).len() >= 3,
        !lines_of(QueryResult::Java(status, latency)).contains(
            LineView::ServerGuid(pong.server_guid),
        ),
        lines_of(QueryResult::Bedrock(pong)).contains(LineView::ServerGuid(pong.server_guid)),
        QueryResult::Java(status, latency).edition_of() == Edition::Java,
        QueryResult::Bedrock(pong).edition_of() == Edition::Bedrock,
{
    law_java_lines_say(status, latency, LineView::ServerGuid(pong.server_guid));
    law_bedrock_lines_say(pong, LineView::ServerGuid(pong.server_guid));
}

/// A line holds what its parts are, each in its place.
pub proof fn law_line_holds(line: Line)
    ensures
        match line@ {
            LineView::Version { name, protocol } => line matches Line::Version {
                name: n,
                protocol: p,
            } && name == n@ && protocol == p,
            LineView::Players { online, max } => line matches Line::Players { online: o, max: m }
                && online == o && max == m,
            LineView::Edition(s) => line matches Line::Edition(t) && s == t@,
            LineView::Motd(s) => line matches Line::Motd(t) && s == t@,
            LineView::SecondMotd(s) => line matches Line::SecondMotd(t) && s == t@,
            LineView::Favicon { len } => line matches Line::Favicon { len: n } && len == n,
            LineView::SecureChat(b) => line matches Line::SecureChat(c) && b == c,
            LineView::Gamemode { name, numeric } => line matches Line::Gamemode {
                name: n,
                numeric: m,
            } && name == n@ && numeric == m,
            LineView::Ports { ipv4, ipv6 } => line matches Line::Ports { ipv4: a, ipv6: b } && ipv4
                == a && ipv6 == b,
            LineView::ServerGuid(g) => line matches Line::ServerGuid(h) && g == h,
            LineView::Latency(d) => line matches Line::Latency(e) && d == e,
        },
{
}

/// An annotated result says its edition, its host and, where it was measured, the round trip; every
/// other member stays as it was. What is no object stays as it is.
pub proof fn law_annotated_says(
    j: Json,
    edition: Edition,
    host: Seq<char>,
    latency_ms: Option<u64>,
    key: Seq<char>,
)
    ensures
        !(j is Object) ==> annotated(j, edition, host, latency_ms) == j,
        j is Object ==> {
            let r = annotated(j, edition, host, latency_ms);
            &&& r is Object
            &&& json::member_of(r, "edition"@) == Some(
                Json::Text(
                    if edition is Java {
                        "Java"@
                    } else {
                        "Bedrock"@
                    },
                ),
            )
            &&& json::member_of(r, "host"@) == Some(Json::Text(host))
            &&& latency_ms matches Some(ms) ==> json::member_of(r, "latency_ms"@) == Some(
                Json::Integer(ms as int),
            )
            &&& latency_ms is None ==> json::member_of(r, "latency_ms"@) == json::member_of(
                j,
                "latency_ms"@,
            )
            &&& key != "edition"@ && key != "host"@ && key != "latency_ms"@ ==> json::member_of(
                r,
                key,
            ) == json::member_of(j, key)
        },
{
    reveal_strlit("edition");
    reveal_strlit("host");
    reveal_strlit("latency_ms");
    assert("edition"@.len() == 7 && "host"@.len() == 4 && "latency_ms"@.len() == 10);
}

/// A failure says its host, its edition and its error, and nothing else.
pub proof fn law_failure_says(
    host: Seq<char>,
    edition: Seq<char>,
    error: Seq<char>,
    key: Seq<char>,
)
    ensures
        json::member_of(failure_json(host, edition, error), "host"@) == Some(Json::Text(host)),
        json::member_of(failure_json(host, edition, error), "edition"@) == Some(
            Json::Text(edition),
        ),
        json::member_of(failure_json(host, edition, error), "error"@) == Some(Json::Text(error)),
        key != "host"@ && key != "edition"@ && key != "error"@ ==> json::member_of(
            failure_json(host, edition, error),
            key,
        ) is None,
{
    reveal_strlit("edition");
    reveal_strlit("host");
    reveal_strlit("error");
    assert("edition"@.len() == 7 && "host"@.len() == 4 && "error"@.len() == 5);
}

} // verus!
