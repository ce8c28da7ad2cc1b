//! The fixed parts of the web page. Each `.._BEFORE_..` text ends where the value that it is named
//! after is put in.

use vstd::prelude::*;

verus! {

pub const PAGE_BEFORE_CSS: &'static str = r##"<!doctype html>
<html lang="en">
<head>
<meta charset="utf-8">
<meta name="viewport" content="width=device-width, initial-scale=1">
<title>mc-scan</title>
<script src="https://unpkg.com/htmx.org@2.0.4" defer></script>
<style>"##;

pub const PAGE_BEFORE_RANGES: &'static str = r##"</style>
</head>
<body>
<a class="skip" href="#ranges">Skip to range</a>
<div class="grain" aria-hidden="true"></div>
<main>
  <header>
    <p class="kicker">IPv4 · port 25565 · players online</p>
    <h1>mc-scan</h1>
    <p class="lede">Name a range. Hit scan. Populated Minecraft servers land in the table as they answer a status ping. SYN mode needs <code>CAP_NET_RAW</code>; without it this falls back to TCP connects.</p>
  </header>
  <noscript><p class="hint">JavaScript is off. Submit the form, then refresh the page to watch progress.</p></noscript>
  <form class="panel" method="post" action="/start"
        hx-post="/start" hx-target="#live" hx-swap="outerHTML">
    <div class="grid">
      <label class="span2">Range <span class="hint">one CIDR or IP per line. Required here.</span>
        <textarea id="ranges" name="ranges" rows="3" required placeholder="192.168.1.0/24" autofocus>"##;

pub const PAGE_BEFORE_PORTS: &'static str = r##"</textarea>
      </label>
      <label>Ports
        <input name="ports" value=""##;

pub const PAGE_BEFORE_MIN_PLAYERS: &'static str = r##"" inputmode="numeric" autocomplete="off">
      </label>
      <label>Min players
        <input name="min_players" value=""##;

pub const PAGE_BEFORE_EXCLUDES: &'static str = r##"" inputmode="numeric" autocomplete="off">
      </label>
      <label class="span2">Exclude <span class="hint">optional CIDRs to skip, one per line</span>
        <textarea name="excludes" rows="2">"##;

pub const PAGE_BEFORE_RATE: &'static str = r##"</textarea>
      </label>
      <label>Rate <span class="hint">pps, blank = auto</span>
        <input name="rate" value=""##;

pub const PAGE_BEFORE_TIMEOUT_MS: &'static str = r##"" inputmode="numeric" autocomplete="off" placeholder="auto">
      </label>
      <label>Timeout ms
        <input name="timeout_ms" value=""##;

pub const PAGE_BEFORE_CONNECT: &'static str = r##"" inputmode="numeric" autocomplete="off">
      </label>
      <label>TCP workers
        <input name="connect" value=""##;

pub const PAGE_BEFORE_PING: &'static str = r##"" inputmode="numeric" autocomplete="off">
      </label>
      <label>Ping workers
        <input name="ping" value=""##;

pub const PAGE_BEFORE_RESERVED: &'static str = r##"" inputmode="numeric" autocomplete="off">
      </label>
    </div>
    <fieldset class="flags">
      <legend class="sr">Flags</legend>
      <label class="check"><input type="checkbox" name="include_reserved" "##;

pub const PAGE_BEFORE_TCP: &'static str = r##"> Include private / reserved (need this for 10/8, 192.168/16, …)</label>
      <label class="check"><input type="checkbox" name="tcp" "##;

pub const PAGE_BEFORE_FRESH: &'static str = r##"> Force TCP connect (skip raw SYN)</label>
      <label class="check"><input type="checkbox" name="fresh" "##;

pub const PAGE_BEFORE_LIVE: &'static str = r##"> Ignore saved cursor, start over</label>
    </fieldset>
    <div class="actions">
      <button type="submit">Scan</button>
      <button type="submit" formaction="/stop" formmethod="post"
              hx-post="/stop" hx-target="#live" hx-swap="outerHTML">Stop</button>
      <a class="text" href="/hits.txt">Download hits.txt</a>
    </div>
  </form>
  "##;

pub const PAGE_BEFORE_HITS: &'static str = r##"
  "##;

pub const PAGE_END: &'static str = r##"
</main>
</body>
</html>
"##;

pub const LIVE_BEFORE_POLL: &'static str = r##"<section id="live" class="panel" "##;

pub const LIVE_BEFORE_PHASE_LABEL: &'static str = r##" aria-live="polite">
  <div class="row">
    <h2>Status</h2>
    <p class="pill "##;

pub const LIVE_BEFORE_PHASE_LABEL_AGAIN: &'static str = r##"">"##;

pub const LIVE_BEFORE_MODE: &'static str = r##" · "##;

pub const LIVE_BEFORE_ERR_HTML: &'static str = r##"</p>
  </div>
  "##;

pub const LIVE_BEFORE_PCT_VALUE: &'static str = r##"
  <progress max="100" value=""##;

pub const LIVE_BEFORE_PCT_LABEL: &'static str = r##"" aria-label="scan progress">"##;

pub const LIVE_BEFORE_DONE: &'static str = r##"%</progress>
  <dl class="stats">
    <div><dt>scanned</dt><dd>"##;

pub const LIVE_BEFORE_TOTAL: &'static str = r##"</dd></div>
    <div><dt>of</dt><dd>"##;

pub const LIVE_BEFORE_ADDRS: &'static str = r##"</dd></div>
    <div><dt>addrs</dt><dd>"##;

pub const LIVE_BEFORE_OPEN: &'static str = r##"</dd></div>
    <div><dt>open</dt><dd>"##;

pub const LIVE_BEFORE_PINGED: &'static str = r##"</dd></div>
    <div><dt>pinged</dt><dd>"##;

pub const LIVE_BEFORE_POPULATED: &'static str = r##"</dd></div>
    <div><dt>populated</dt><dd>"##;

pub const LIVE_BEFORE_ETA: &'static str = r##"</dd></div>
    <div><dt>eta</dt><dd>"##;

pub const LIVE_BEFORE_PROGRESS: &'static str = r##"</dd></div>
  </dl>
  <p class="progress-line">"##;

pub const LIVE_BEFORE_LOGS: &'static str = r##"</p>
  <ol class="log">"##;

pub const LIVE_END: &'static str = r##"</ol>
</section>
"##;

pub const HITS_BEFORE_N: &'static str = r##"<section class="panel" id="hits-wrap"
      hx-get="/hits" hx-trigger="every 1s" hx-swap="outerHTML">
  <div class="row">
    <h2>Populated</h2>
    <p class="pill">"##;

pub const HITS_BEFORE_ROWS: &'static str = r##"</p>
  </div>
  <div class="table-wrap">
    <table>
      <thead><tr><th>server</th><th>players</th><th>version</th><th>motd</th></tr></thead>
      <tbody>"##;

pub const HITS_END: &'static str = r##"</tbody>
    </table>
  </div>
</section>
"##;

pub const CSS: &'static str = r#"
:root {
  --bg: #10140e;
  --bg-2: #181e14;
  --ink: #e4f0c8;
  --muted: #8ea06a;
  --line: #3a4a28;
  --accent: #c6e04a;
  --warn: #e0a14a;
  --hot: #7ee0c0;
  --err: #e07060;
  --font: "IBM Plex Mono", "iA Writer Mono", "Cascadia Mono", ui-monospace, monospace;
}
* { box-sizing: border-box; }
html { -webkit-font-smoothing: antialiased; }
body {
  margin: 0;
  min-height: 100vh;
  background:
    radial-gradient(1200px 500px at 10% -10%, #243018 0%, transparent 55%),
    var(--bg);
  color: var(--ink);
  font: 16px/1.5 var(--font);
}
.grain {
  pointer-events: none;
  position: fixed; inset: 0;
  background: repeating-linear-gradient(
    to bottom,
    transparent 0 2px,
    rgb(0 0 0 / 0.12) 2px 3px
  );
  z-index: 0;
}
.skip {
  position: absolute; left: -999px; top: 0;
}
.skip:focus { left: 1rem; top: 1rem; z-index: 2; background: var(--bg-2); padding: .4rem .6rem; }
main { position: relative; z-index: 1; max-width: 920px; margin: 0 auto; padding: 2.5rem 1.25rem 4rem; }
header { margin-bottom: 1.5rem; }
.kicker { color: var(--accent); letter-spacing: .14em; text-transform: uppercase; font-size: 12px; margin: 0 0 .4rem; }
h1 { font-size: 2.75rem; line-height: 1.05; letter-spacing: -.04em; margin: 0 0 .6rem; text-wrap: balance; }
h2 { font-size: 1rem; margin: 0; letter-spacing: .08em; text-transform: uppercase; color: var(--muted); }
.lede { max-width: 62ch; color: var(--muted); text-wrap: pretty; margin: 0; }
.lede code { color: var(--hot); }
.panel {
  background: rgb(24 30 20 / 0.92);
  border: 1px solid var(--line);
  padding: 1.1rem 1.15rem 1.2rem;
  margin: 0 0 1rem;
}
.grid { display: grid; grid-template-columns: 1fr 1fr; gap: .85rem 1rem; }
.span2 { grid-column: 1 / -1; }
label { display: flex; flex-direction: column; gap: .35rem; color: var(--muted); font-size: 13px; letter-spacing: .04em; text-transform: uppercase; }
.hint { text-transform: none; letter-spacing: 0; color: #6d7c52; font-size: 12px; }
input, textarea, button {
  font: inherit; color: var(--ink); background: #0c100a;
  border: 1px solid var(--line); padding: .55rem .65rem; border-radius: 0;
}
::placeholder { color: #5c6a45; opacity: 1; }
textarea { resize: vertical; min-height: 4.5rem; }
input:focus, textarea:focus, button:focus {
  outline: 2px solid var(--accent); outline-offset: 2px;
}
.flags { border: 0; padding: 1rem 0 0; margin: 0; display: flex; flex-direction: column; gap: .45rem; }
.check { flex-direction: row; align-items: center; gap: .55rem; text-transform: none; letter-spacing: 0; font-size: 14px; color: var(--ink); }
.check input { width: 1.05rem; height: 1.05rem; accent-color: var(--accent); }
.sr { position: absolute; width: 1px; height: 1px; overflow: hidden; clip: rect(0 0 0 0); }
.actions { display: flex; flex-wrap: wrap; gap: .6rem; align-items: center; margin-top: 1rem; }
button {
  background: var(--accent); color: #14180c; font-weight: 650; letter-spacing: .06em;
  text-transform: uppercase; padding: .65rem 1.1rem; cursor: pointer; border-color: var(--accent);
}
button:hover { filter: brightness(1.05); }
button:active { transform: translateY(1px); }
button[formaction] { background: transparent; color: var(--ink); border-color: var(--line); }
a.text { color: var(--hot); }
.row { display: flex; justify-content: space-between; align-items: baseline; gap: 1rem; margin-bottom: .8rem; }
.pill { margin: 0; font-size: 12px; letter-spacing: .1em; text-transform: uppercase; color: var(--muted); }
.pill.running, .pill.stopping { color: var(--warn); }
.pill.done { color: var(--hot); }
progress { width: 100%; height: .55rem; accent-color: var(--accent); background: #0c100a; }
.stats { display: grid; grid-template-columns: repeat(auto-fit, minmax(7rem, 1fr)); gap: .6rem 1rem; margin: .9rem 0 .4rem; }
.stats div { margin: 0; }
dt { color: var(--muted); font-size: 11px; letter-spacing: .12em; text-transform: uppercase; }
dd { margin: 0; font-variant-numeric: tabular-nums; font-size: 1.15rem; }
.progress-line { color: var(--muted); font-size: 13px; min-height: 1.3em; font-variant-numeric: tabular-nums; }
.log { margin: .4rem 0 0; padding: 0; list-style: none; color: var(--muted); font-size: 13px; max-height: 9rem; overflow: auto; }
.log li { padding: .1rem 0; border-bottom: 1px solid rgb(58 74 40 / 0.4); }
.err { background: rgb(224 112 96 / 0.12); color: var(--err); border: 1px solid var(--err); padding: .6rem .75rem; margin: 0 0 1rem; }
.table-wrap { overflow: auto; max-height: 28rem; }
table { width: 100%; border-collapse: collapse; font-size: 14px; }
th { text-align: left; color: var(--muted); font-weight: 500; font-size: 11px; letter-spacing: .1em; text-transform: uppercase; padding: .4rem .5rem; border-bottom: 1px solid var(--line); }
td { padding: .45rem .5rem; border-bottom: 1px solid rgb(58 74 40 / 0.45); vertical-align: top; }
td.num, .num { font-variant-numeric: tabular-nums; }
td.empty { color: var(--muted); }
code { font-family: inherit; color: var(--hot); }
@media (max-width: 640px) {
  h1 { font-size: 2rem; }
  .grid { grid-template-columns: 1fr; }
  .span2 { grid-column: auto; }
}
"#;

} // verus!
