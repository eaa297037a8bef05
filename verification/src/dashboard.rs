//! The live dashboard's settings and its page.

use vstd::prelude::*;

use crate::text::{decimal, push_decimal, push_str};

verus! {

pub const PAGE_STYLE: &'static str = "\n  :root{--bg:#0f1117;--surface:#1a1d27;--border:#2d3148;--accent:#5865f2;--green:#3ba55d;--text:#dcddde;--muted:#72767d}\n  *{box-sizing:border-box;margin:0;padding:0}\n  body{background:var(--bg);color:var(--text);font-family:\"SF Mono\",Consolas,monospace;font-size:13px;display:flex;flex-direction:column;min-height:100vh}\n  header{background:var(--surface);border-bottom:1px solid var(--border);padding:12px 24px;display:flex;align-items:center;gap:12px}\n  .dot{width:10px;height:10px;border-radius:50%;background:var(--green);animation:pulse 2s infinite}\n  @keyframes pulse{0%,100%{opacity:1}50%{opacity:.4}}\n  h1{font-size:15px;font-weight:600;letter-spacing:.5px}\n  .status{margin-left:auto;color:var(--muted);font-size:11px}\n  main{display:grid;grid-template-columns:repeat(auto-fit,minmax(280px,1fr));gap:16px;padding:20px}\n  .card{background:var(--surface);border:1px solid var(--border);border-radius:8px;padding:16px}\n  .card h2{font-size:11px;text-transform:uppercase;letter-spacing:1px;color:var(--muted);margin-bottom:12px}\n  .stat-grid{display:grid;grid-template-columns:1fr 1fr;gap:10px}\n  .stat{background:var(--bg);border-radius:6px;padding:10px 12px}\n  .stat .label{font-size:10px;color:var(--muted);margin-bottom:4px}\n  .stat .value{font-size:22px;font-weight:700;color:var(--accent)}\n  .stat .unit{font-size:11px;color:var(--muted)}\n  canvas{width:100%;height:180px;display:block}\n  .worker-bars{display:flex;flex-direction:column;gap:8px}\n  .worker-row{display:flex;align-items:center;gap:8px}\n  .worker-row .wlabel{width:28px;text-align:right;color:var(--muted);font-size:11px}\n  .bar-bg{flex:1;height:16px;background:var(--bg);border-radius:4px;overflow:hidden}\n  .bar-fill{height:100%;border-radius:4px;transition:width .4s ease}\n  .worker-row .wpct{width:38px;text-align:right;font-size:11px}\n";
pub const PAGE_SCRIPT: &'static str = "\n(function(){\n  \"use strict\";\n  var HISTORY = 120;\n  var throughputHistory = [];\n  var canvas = document.getElementById(\"chart-tp\");\n  var ctx = canvas.getContext(\"2d\");\n\n  function resizeCanvas(){\n    canvas.width  = canvas.offsetWidth  * window.devicePixelRatio;\n    canvas.height = canvas.offsetHeight * window.devicePixelRatio;\n    ctx.scale(window.devicePixelRatio, window.devicePixelRatio);\n  }\n  resizeCanvas();\n  window.addEventListener(\"resize\", function(){ resizeCanvas(); drawChart(); });\n\n  function drawChart(){\n    var W = canvas.offsetWidth, H = canvas.offsetHeight;\n    ctx.clearRect(0,0,W,H);\n    if(throughputHistory.length < 2) return;\n    var max = Math.max.apply(null, throughputHistory.concat([1])) * 1.2;\n    var padL=48, padR=12, padT=10, padB=24;\n    var cw = W-padL-padR, ch = H-padT-padB;\n    ctx.strokeStyle = \"#2d3148\"; ctx.lineWidth = 1;\n    for(var i=0; i<=4; i++){\n      var y = padT + ch*(1 - i/4);\n      ctx.beginPath(); ctx.moveTo(padL,y); ctx.lineTo(padL+cw,y); ctx.stroke();\n      ctx.fillStyle = \"#72767d\"; ctx.font = \"10px monospace\";\n      ctx.fillText((max*i/4).toFixed(0), 2, y+4);\n    }\n    ctx.beginPath(); ctx.strokeStyle = \"#5865f2\"; ctx.lineWidth = 2;\n    throughputHistory.forEach(function(v,i){\n      var x = padL + (i/(HISTORY-1))*cw;\n      var y = padT + ch*(1 - v/max);\n      i === 0 ? ctx.moveTo(x,y) : ctx.lineTo(x,y);\n    });\n    ctx.stroke();\n    ctx.lineTo(padL+cw, padT+ch); ctx.lineTo(padL, padT+ch); ctx.closePath();\n    ctx.fillStyle = \"rgba(88,101,242,0.12)\"; ctx.fill();\n  }\n\n  function updateWorkerBars(utils){\n    utils.forEach(function(u,i){\n      var fill = document.getElementById(\"wfill-\" + i);\n      var pct  = document.getElementById(\"wpct-\"  + i);\n      if(!fill) return;\n      var color = u > 80 ? \"#3ba55d\" : u > 40 ? \"#faa61a\" : \"#ed4245\";\n      fill.style.width      = u.toFixed(1) + \"%\";\n      fill.style.background = color;\n      pct.textContent       = u.toFixed(1) + \"%\";\n    });\n  }\n\n  function setText(id, val){ var el=document.getElementById(id); if(el) el.textContent=val; }\n\n  var dot    = document.getElementById(\"dot\");\n  var status = document.getElementById(\"status\");\n  var evtSrc = new EventSource(\"/events\");\n\n  evtSrc.onopen = function(){\n    dot.style.background = \"#3ba55d\";\n    status.textContent   = \"Live\";\n  };\n  evtSrc.onerror = function(){\n    dot.style.background = \"#ed4245\";\n    status.textContent   = \"Disconnected - retrying...\";\n  };\n  evtSrc.onmessage = function(e){\n    var d; try{ d = JSON.parse(e.data); } catch(ex){ return; }\n    setText(\"s-completed\",  d.completed);\n    setText(\"s-throughput\", d.throughput.toFixed(1));\n    setText(\"s-avg\",        d.avg_task_us);\n    setText(\"s-steal\",      (d.steal_rate * 100).toFixed(1));\n    throughputHistory.push(d.throughput);\n    if(throughputHistory.length > HISTORY) throughputHistory.shift();\n    drawChart();\n    if(d.worker_utils) updateWorkerBars(d.worker_utils);\n  };\n})();\n";
pub const PAGE_PART_0: &'static str = "<!DOCTYPE html>\n<html lang=\"en\">\n<head>\n<meta charset=\"UTF-8\">\n<meta name=\"viewport\" content=\"width=device-width,initial-scale=1\">\n<title>";
pub const PAGE_PART_1: &'static str = "</title>\n<style>";
pub const PAGE_PART_2: &'static str = "</style>\n</head>\n<body>\n<header>\n<div class=\"dot\" id=\"dot\"></div>\n<h1>";
pub const PAGE_PART_3: &'static str = "</h1>\n<span class=\"status\" id=\"status\">Connecting...</span>\n</header>\n<main>\n<div class=\"card\" style=\"grid-column:span 2\">\n<h2>Live Metrics</h2>\n<div class=\"stat-grid\">\n<div class=\"stat\"><div class=\"label\">Tasks Completed</div><div class=\"value\" id=\"s-completed\">-</div></div>\n<div class=\"stat\"><div class=\"label\">Throughput</div><div class=\"value\" id=\"s-throughput\">-</div><div class=\"unit\">tasks / sec</div></div>\n<div class=\"stat\"><div class=\"label\">Avg Task Duration</div><div class=\"value\" id=\"s-avg\">-</div><div class=\"unit\">us</div></div>\n<div class=\"stat\"><div class=\"label\">Steal Rate</div><div class=\"value\" id=\"s-steal\">-</div><div class=\"unit\">%</div></div>\n</div>\n</div>\n<div class=\"card\" style=\"grid-column:span 2\">\n<h2>Throughput over time (tasks/sec)</h2>\n<canvas id=\"chart-tp\"></canvas>\n</div>\n<div class=\"card\" style=\"grid-column:span 2\">\n<h2>Worker Utilisation</h2>\n<div class=\"worker-bars\">";
pub const PAGE_PART_4: &'static str = "</div>\n</div>\n</main>\n<script>";
pub const PAGE_PART_5: &'static str = "</script>\n</body>\n</html>";
pub const ROW_PART_0: &'static str = "<div class=\"worker-row\"><span class=\"wlabel\">W";
pub const ROW_PART_1: &'static str = "</span><div class=\"bar-bg\"><div class=\"bar-fill\" id=\"wfill-";
pub const ROW_PART_2: &'static str = "\" style=\"width:0%\"></div></div><span class=\"wpct\" id=\"wpct-";
pub const ROW_PART_3: &'static str = "\">0%</span></div>";

/// Settings of the dashboard server.
#[derive(Clone)]
pub struct DashboardConfig {
    /// The TCP port served.
    pub port: u16,
    /// Milliseconds between two pushed snapshots.
    pub push_interval_ms: u64,
    /// How many snapshots are kept.
    pub history_len: usize,
    /// The page title.
    pub title: String,
}

impl Default for DashboardConfig {
    fn default() -> (c: Self)
        ensures
            c.port == 9090,
            c.push_interval_ms == 500,
            c.history_len == 120,
            c.title@ == "TaskFlow Dashboard"@,
    {
        DashboardConfig { port: 9090, push_interval_ms: 500, history_len: 120, title: String::from_str("TaskFlow Dashboard") }
    }
}

/// The utilisation bar of worker `i`.
pub open spec fn worker_row(i: nat) -> Seq<char> {
    ROW_PART_0@ + decimal(i) + ROW_PART_1@ + decimal(i) + ROW_PART_2@ + decimal(i) + ROW_PART_3@
}

/// The bars of workers `0 .. n`, one per line.
pub open spec fn worker_rows(n: nat) -> Seq<char>
    decreases n,
{
    if n == 0 {
        Seq::empty()
    } else if n == 1 {
        worker_row(0)
    } else {
        worker_rows((n - 1) as nat) + "\n"@ + worker_row((n - 1) as nat)
    }
}

/// The dashboard page for `n` workers under `title`.
pub open spec fn dashboard_page(title: Seq<char>, n: nat) -> Seq<char> {
    PAGE_PART_0@ + title + PAGE_PART_1@ + PAGE_STYLE@ + PAGE_PART_2@ + title + PAGE_PART_3@ + worker_rows(n)
        + PAGE_PART_4@ + PAGE_SCRIPT@ + PAGE_PART_5@
}

fn push_worker_row(s: &mut String, i: usize)
    ensures
        final(s)@ == old(s)@ + worker_row(i as nat),
{
    push_str(s, ROW_PART_0);
    push_decimal(s, i);
    push_str(s, ROW_PART_1);
    push_decimal(s, i);
    push_str(s, ROW_PART_2);
    push_decimal(s, i);
    push_str(s, ROW_PART_3);
    assert(final(s)@ =~= old(s)@ + worker_row(i as nat));
}

/// The dashboard page: title, styles, live metric cards, a throughput
/// chart, one utilisation bar per worker, and the script that feeds them.
pub fn build_html(title: &str, num_workers: usize) -> (s: String)
    ensures
        s@ == dashboard_page(title@, num_workers as nat),
{
    let mut s = String::new();
    push_str(&mut s, PAGE_PART_0);
    push_str(&mut s, title);
    push_str(&mut s, PAGE_PART_1);
    push_str(&mut s, PAGE_STYLE);
    push_str(&mut s, PAGE_PART_2);
    push_str(&mut s, title);
    push_str(&mut s, PAGE_PART_3);
    let ghost head = s@;
    let mut i: usize = 0;
    while i < num_workers
        invariant
            0 <= i <= num_workers,
            s@ == head + worker_rows(i as nat),
        decreases num_workers - i,
    {
        if i > 0 {
            push_str(&mut s, "\n");
        }
        push_worker_row(&mut s, i);
        proof {
            if i > 0 {
                assert(s@ =~= head + worker_rows((i + 1) as nat));
            } else {
                assert(s@ =~= head + worker_rows(1));
            }
        }
        i = i + 1;
    }
    push_str(&mut s, PAGE_PART_4);
    push_str(&mut s, PAGE_SCRIPT);
    push_str(&mut s, PAGE_PART_5);
    proof {
        assert(s@ =~= dashboard_page(title@, num_workers as nat));
    }
    s
}

} // verus!
