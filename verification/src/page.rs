//! The web page.
use vstd::prelude::*;

verus! {

/// The page that draws the history, which it fetches from `/api`.
pub const HTML_PAGE: &'static str = r#"<!DOCTYPE html>
<html><head><meta charset="utf-8">
<title>Fan Controller</title>
<style>
body{font-family:monospace;background:#1a1a2e;color:#e0e0e0;text-align:center;padding:20px}
h1{color:#00d4ff}
canvas{background:#16213e;border-radius:8px;margin:14px auto;display:block}
.stats{border-collapse:collapse;margin:14px auto}
.stats th,.stats td{border:1px solid #2a3a5c;padding:8px 26px;text-align:center}
.stats th{color:#00d4ff;font-size:14px}
.stats td{color:#e0e0e0;font-size:20px;min-width:78px}
.legend{color:#888;font-size:13px;margin:6px 0}
.info{color:#888;font-size:14px;margin-top:10px}
</style></head><body>
<h1>Fan Controller</h1>
<table class="stats">
<tr><th>温度</th><th>PWM</th><th>CPU</th><th>内存</th><th>磁盘</th></tr>
<tr><td id="temp">--</td><td id="pwm">--</td><td id="cpu">--</td><td id="mem">--</td><td id="disk">--</td></tr>
</table>
<div class="legend"><span style="color:#00d4ff">■</span> 温度 (°C，纵轴 20~70)</div>
<canvas id="chart" width="760" height="300"></canvas>
<div class="legend"><span style="color:#ffaa00">■</span> CPU &nbsp; <span style="color:#b388ff">■</span> 内存 &nbsp; <span style="color:#ff6688">■</span> 磁盘 (%)</div>
<canvas id="syschart" width="760" height="240"></canvas>
<div class="info">Auto refresh every <span id="interval"></span>s</div>
<script>
let temps=[],cpuH=[],memH=[],diskH=[];
let intervalSec=5;
function draw(){
  const c=document.getElementById('chart'),ctx=c.getContext('2d');
  const W=c.width,H=c.height,padL=70,padR=20,padT=20,padB=30;
  ctx.clearRect(0,0,W,H);
  if(temps.length<1)return;
  const minT=20,maxT=70,range=maxT-minT;
  // grid (5°C intervals)
  ctx.strokeStyle='#2a3a5c';ctx.lineWidth=1;
  ctx.font='12px monospace';ctx.textAlign='right';ctx.textBaseline='middle';
  for(let t=minT;t<=maxT;t+=5){
    const y=padT+(H-padT-padB)*(1-(t-minT)/range);
    ctx.beginPath();ctx.moveTo(padL,y);ctx.lineTo(W-padR,y);ctx.stroke();
    ctx.fillStyle='#668';
    ctx.fillText(t+'°C',padL-6,y);
  }
  // line
  ctx.strokeStyle='#00d4ff';ctx.lineWidth=2;ctx.beginPath();
  const stepX=W-padL-padR;
  temps.forEach((t,i)=>{
    const x=padL+(temps.length>1?stepX*i/(temps.length-1):stepX/2);
    const y=padT+(H-padT-padB)*(1-(t-minT)/range);
    i===0?ctx.moveTo(x,y):ctx.lineTo(x,y);
  });
  ctx.stroke();
  // dots
  ctx.fillStyle='#00ff88';
  temps.forEach((t,i)=>{
    const x=padL+(temps.length>1?stepX*i/(temps.length-1):stepX/2);
    const y=padT+(H-padT-padB)*(1-(t-minT)/range);
    ctx.beginPath();ctx.arc(x,y,3,0,Math.PI*2);ctx.fill();
  });
}
function lastVal(a){return a&&a.length?a[a.length-1].toFixed(1)+'%':'--';}
function drawSys(){
  const c=document.getElementById('syschart'),ctx=c.getContext('2d');
  const W=c.width,H=c.height,padL=50,padR=20,padT=20,padB=30;
  ctx.clearRect(0,0,W,H);
  // 网格 0~100%
  ctx.strokeStyle='#2a3a5c';ctx.lineWidth=1;
  ctx.font='12px monospace';ctx.textAlign='right';ctx.textBaseline='middle';
  for(let p=0;p<=100;p+=20){
    const y=padT+(H-padT-padB)*(1-p/100);
    ctx.beginPath();ctx.moveTo(padL,y);ctx.lineTo(W-padR,y);ctx.stroke();
    ctx.fillStyle='#668';
    ctx.fillText(p+'%',padL-6,y);
  }
  // CPU/内存/磁盘 三条百分比曲线
  const lines=[['#ffaa00',cpuH],['#b388ff',memH],['#ff6688',diskH]];
  lines.forEach(([col,arr])=>{
    if(arr.length<1)return;
    ctx.strokeStyle=col;ctx.lineWidth=2;ctx.beginPath();
    const stepX=W-padL-padR;
    arr.forEach((v,i)=>{
      const x=padL+(arr.length>1?stepX*i/(arr.length-1):stepX/2);
      const y=padT+(H-padT-padB)*(1-Math.max(0,Math.min(100,v))/100);
      i===0?ctx.moveTo(x,y):ctx.lineTo(x,y);
    });
    ctx.stroke();
  });
}
async function poll(){
  try{
    const r=await fetch('/api');
    const d=await r.json();
    temps=d.temps;cpuH=d.cpu;memH=d.mem;diskH=d.disk;
    document.getElementById('temp').textContent=temps.length?temps[temps.length-1].toFixed(1)+'°C':'--';
    document.getElementById('pwm').textContent=d.pwm;
    document.getElementById('cpu').textContent=lastVal(cpuH);
    document.getElementById('mem').textContent=lastVal(memH);
    document.getElementById('disk').textContent=lastVal(diskH);
    intervalSec=d.interval;
    document.getElementById('interval').textContent=intervalSec;
    draw();
    drawSys();
  }catch(e){console.error(e)}
}
poll();
setInterval(poll,5000);
</script></body></html>"#;

} // verus!
