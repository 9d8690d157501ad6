//! Pinyin syllables: the built-in syllable-to-character table, greedy
//! syllable segmentation, fuzzy syllable variants and initial-letter
//! expansion.

use vstd::prelude::*;
use crate::text::{
    chars_of, find_first, lemma_find_first_at, lemma_find_first_none, spec_lines, spec_split,
    split_lines, split_on, string_from_chars,
};

verus! {

/// The built-in pinyin table: one line per syllable, the syllable, a
/// space, then its common characters from most to least frequent.
pub const BUILTIN_TABLE: &'static str = "a 啊阿呵\nai 爱艾哎唉\nan 安按暗岸\nba 八把爸吧巴\nbai 白百败拜\nban 办班般版半\nbang 帮邦榜棒\nbao 包报保宝抱\nbei 北被背杯备\nben 本奔笨\nbi 比必笔毕币\nbian 变便边编遍\nbiao 表标彪\nbie 别憋\nbing 并病兵冰\nbo 不波博播薄\nbu 不布步部补\nca 擦\ncai 才材财采菜\ncan 参残餐惨\ncang 藏仓苍\ncao 草操曹\nce 策测侧册\nceng 层曾\ncha 查茶差插察\nchai 差柴拆\nchan 产缠禅颤\nchang 长常场唱厂\nchao 超朝潮吵抄\nche 车扯彻\nchen 陈晨沉尘\ncheng 成城程称承\nchi 吃持迟池尺\nchong 冲虫重充\nchou 抽愁丑臭\nchu 出处初除楚\nchuan 传穿船川\nchuang 创床窗闯\nchui 吹锤垂\nchun 春纯唇\nci 次此词辞\ncong 从聪丛匆\ncu 粗促醋\ncuan 窜攒\ncui 催脆翠\ncun 村存寸\ncuo 错措搓\nda 大打达答\ndai 大代带待袋\ndan 但单淡蛋担\ndang 当党档挡\ndao 到道刀倒导\nde 的得德地\ndeng 等灯登\ndi 地的第低底\ndian 点电店典垫\ndiao 掉调吊雕\ndie 跌爹碟蝶\nding 定顶订丁\ndong 动东冬懂冻\ndou 都斗读豆\ndu 读度都毒独\nduan 段短断端\ndui 对队堆\ndun 顿吨盾\nduo 多度躲朵\ne 额恶饿俄\nen 恩\ner 二儿耳而\nfa 发法罚乏\nfan 反饭犯范繁\nfang 方放房访防\nfei 非飞费肥废\nfen 分份粉奋纷\nfeng 风封丰峰锋\nfo 佛\nfou 否\nfu 父付服府负复福富\nga 嘎\ngai 改该盖概\ngan 干敢感甘肝\ngang 刚钢港岗\ngao 高告搞稿\nge 个各歌格哥\ngei 给\ngen 跟根更\ngeng 更耕\ngong 工公共功供\ngou 够狗构购\ngu 古故顾骨谷\ngua 挂瓜刮\nguai 怪乖拐\nguan 关观管官馆\nguang 光广逛\ngui 贵规鬼归轨\ngun 滚棍\nguo 过国果锅\nha 哈\nhai 还海害孩\nhan 汉汗寒喊韩\nhang 行航杭巷\nhao 好号豪毫\nhe 和合河何核\nhei 黑\nhen 很狠恨\nheng 横恒衡\nhong 红宏洪轰\nhou 后候厚喉\nhu 户湖呼虎护\nhua 化花话画华\nhuai 坏怀\nhuan 换还环欢缓\nhuang 黄皇荒慌\nhui 会回灰汇挥\nhun 混婚魂昏\nhuo 或活火货获\nji 机己记级计几即极集急\njia 家加价假架\njian 见间建件简\njiang 将江讲强奖\njiao 教交叫脚角\njie 接街结节杰\njin 进金近紧尽\njing 经京精晶睛\njiu 就九酒久旧\nju 局居举巨聚\njuan 卷捐娟倦\njue 觉决绝掘\njun 军君均俊\nka 卡咖\nkai 开凯楷\nkan 看砍坎刊\nkang 抗康扛亢\nkao 考靠烤拷\nke 可科客克课\nken 肯恳\nkeng 坑\nkong 空控孔\nkou 口扣叩\nku 苦哭库酷\nkua 跨夸垮\nkuai 快块筷\nkuan 宽款\nkuang 况矿狂框\nkun 困昆坤\nkuo 扩阔括\nla 拉啦辣腊\nlai 来赖莱\nlan 兰蓝烂懒拦\nlang 浪狼郎朗\nlao 老劳牢捞\nle 了乐勒\nlei 累类雷泪\nleng 冷愣\nli 里力理利立离\nlia 俩\nlian 连联脸练莲\nliang 两亮良量凉\nliao 了料聊辽疗\nlie 列烈裂劣\nlin 林临邻淋\nling 令领零灵玲\nliu 流六留刘柳\nlong 龙隆弄笼\nlou 楼漏露搂\nlu 路录陆露卢\nlv 律绿率旅虑\nluan 乱卵\nlue 略掠\nlun 论轮伦\nluo 落罗络洛\nma 吗妈马麻骂\nmai 买卖迈麦\nman 满慢曼漫\nmang 忙芒盲茫\nmao 毛猫矛茅茂\nme 么\nmei 没美妹每梅\nmen 们门闷\nmeng 梦猛蒙盟\nmi 米密迷秘蜜\nmian 面棉眠绵\nmiao 秒苗描妙\nmie 灭蔑\nmin 民敏名闽\nming 名明命鸣铭\nmiu 谬\nmo 没么模磨摩\nmou 某谋\nmu 母木目幕牧\nna 那拿哪纳\nnai 奶耐乃奈\nnan 南难男\nnang 囊\nnao 脑恼闹\nne 呢\nnei 内\nnen 嫩\nneng 能\nni 你呢泥逆拟\nnian 年念粘碾\nniang 娘酿\nniao 鸟尿\nnie 捏聂孽镍\nnin 您\nning 宁凝拧柠\nniu 牛扭纽\nnong 农浓弄\nnu 女怒努\nnv 女\nnuan 暖\nnue 虐疟\nnuo 诺挪懦\no 哦\nou 欧偶呕藕\npa 怕爬帕趴\npai 排拍牌派\npan 判盘盼攀\npang 旁胖庞\npao 跑炮抛泡\npei 配培赔陪\npen 盆喷\npeng 朋鹏碰捧\npi 批皮披匹劈\npian 片篇骗偏\npiao 票漂飘\npie 撇瞥\npin 品拼频贫\nping 平评瓶凭\npo 破婆迫坡\npou 剖\npu 普铺朴谱\nqi 起气期其七\nqia 恰洽卡\nqian 前钱千签牵\nqiang 强枪墙抢\nqiao 桥瞧巧敲\nqie 切且茄怯\nqin 亲琴勤秦侵\nqing 请清情青轻\nqiong 穷琼\nqiu 求球秋丘\nqu 去区曲取娶\nquan 全权圈泉拳\nque 却确缺雀\nqun 群裙\nran 然燃染\nrang 让嚷攘\nrao 绕扰饶\nre 热惹\nren 人认任仁忍\nreng 仍扔\nri 日\nrong 容荣融绒\nrou 肉柔揉\nru 入如儒乳\nruan 软阮\nrui 瑞锐睿\nrun 润闰\nruo 若弱\nsa 撒洒萨\nsai 赛塞腮\nsan 三散伞\nsang 丧桑嗓\nsao 扫嫂骚\nse 色塞瑟\nsen 森\nseng 僧\nsha 杀沙纱傻\nshai 晒筛\nshan 山善闪衫\nshang 上商伤赏\nshao 少烧绍稍\nshe 设社射涉\nshen 深身神什申\nsheng 生声省胜升\nshi 是时事实十\nshou 手首受收\nshu 书数树术输\nshua 刷耍\nshuai 帅率摔\nshuan 栓拴\nshuang 双爽霜\nshui 水说睡税\nshun 顺瞬舜\nshuo 说硕朔\nsi 四死思司斯\nsong 送松宋颂\nsou 搜艘\nsu 速素苏诉\nsuan 算酸蒜\nsui 岁随碎虽\nsun 孙损笋\nsuo 所锁索缩\nta 他她它塔\ntai 太台态泰\ntan 谈探坦摊\ntang 堂唐糖躺\ntao 套逃桃陶\nte 特\nteng 疼腾藤\nti 提题体替\ntian 天田填甜\ntiao 条调跳挑\ntie 铁贴帖\nting 听停庭厅\ntong 同通统痛\ntou 头投透偷\ntu 土图突途\ntuan 团湍\ntui 推退腿\ntun 吞屯囤\ntuo 脱拖托驼\nwa 挖哇蛙娃\nwai 外歪\nwan 完晚万玩\nwang 王网往忘\nwei 为位未围委\nwen 问文闻温\nweng 翁嗡\nwo 我窝握卧\nwu 无五物务武\nxi 系西息希席\nxia 下夏吓虾\nxian 先现线限显\nxiang 想向相乡香\nxiao 小笑校消效\nxie 写些谢鞋协\nxin 新心信欣辛\nxing 行星性形姓\nxiong 雄兄胸凶\nxiu 修休秀袖\nxu 需须续许序\nxuan 选宣县悬\nxue 学血雪穴\nxun 寻讯训迅\nya 呀压牙亚\nyan 言眼研严演\nyang 样洋阳扬氧\nyao 要药摇腰遥\nye 也业夜叶爷\nyi 一以意义已\nyin 因引音银印\nying 应英影营迎\nyo 哟\nyong 用永拥勇\nyou 有又由友右\nyu 与于语雨玉\nyuan 元原员源远\nyue 月约越跃\nyun 云运员韵\nza 杂砸\nzai 在再载灾\nzan 咱赞暂\nzang 藏脏葬\nzao 早造遭燥\nze 则责择泽\nzei 贼\nzen 怎\nzeng 增曾赠\nzha 扎炸查渣\nzhai 债宅寨窄\nzhan 战站占展\nzhang 长张章掌\nzhao 找照招赵\nzhe 这着者折\nzhen 真镇针阵\nzheng 正政证整\nzhi 之知制只至\nzhong 中种重众\nzhou 周州洲舟\nzhu 主住注助\nzhua 抓\nzhuai 拽\nzhuan 专转传赚\nzhuang 装状庄撞\nzhui 追坠缀\nzhun 准\nzhuo 着桌捉\nzi 子自字资\nzong 总纵宗综\nzou 走奏邹\nzu 组足族租\nzuan 钻纂\nzui 最嘴罪\nzun 尊遵\nzuo 作做座左";

/// Longest syllable length in the built-in table.
pub const MAX_SYLLABLE_LEN: usize = 6;

/// One row of the table: the syllable and its characters.
pub open spec fn row_of(line: Seq<char>) -> (Seq<char>, Seq<char>) {
    let parts = spec_split(line, ' ');
    (parts[0], if parts.len() >= 2 { parts[1] } else { Seq::empty() })
}

/// The rows of a table text.
pub open spec fn table_rows(text: Seq<char>) -> Seq<(Seq<char>, Seq<char>)> {
    spec_lines(text).map_values(|l: Seq<char>| row_of(l))
}

/// The rows of the built-in table.
pub open spec fn builtin_rows() -> Seq<(Seq<char>, Seq<char>)> {
    table_rows(BUILTIN_TABLE@)
}

/// The syllables of the built-in table, in table order.
pub open spec fn builtin_syllables() -> Seq<Seq<char>> {
    builtin_rows().map_values(|r: (Seq<char>, Seq<char>)| r.0)
}

/// The view of a list of rows held as character vectors.
pub open spec fn rows_view(v: Seq<(Vec<char>, Vec<char>)>) -> Seq<(Seq<char>, Seq<char>)> {
    v.map_values(|r: (Vec<char>, Vec<char>)| (r.0@, r.1@))
}

/// The view of a list of character vectors.
pub open spec fn seqs_view(v: Seq<Vec<char>>) -> Seq<Seq<char>> {
    v.map_values(|p: Vec<char>| p@)
}

/// The view of a list of strings.
pub open spec fn strings_view(v: Seq<String>) -> Seq<Seq<char>> {
    v.map_values(|p: String| p@)
}

/// Parses table text into rows.
pub fn parse_table(text: &str) -> (rows: Vec<(Vec<char>, Vec<char>)>)
    ensures
        rows_view(rows@) == table_rows(text@),
{
    let chars = chars_of(text);
    let lines = split_lines(chars.as_slice());
    let ghost ls = seqs_view(lines@);
    let mut rows: Vec<(Vec<char>, Vec<char>)> = Vec::new();
    let mut i: usize = 0;
    while i < lines.len()
        invariant
            i <= lines.len(),
            ls == seqs_view(lines@),
            ls == spec_lines(text@),
            rows_view(rows@) == ls.take(i as int).map_values(|l: Seq<char>| row_of(l)),
        decreases lines.len() - i,
    {
        let parts = split_on(lines[i].as_slice(), ' ');
        assert(seqs_view(parts@) == spec_split(ls[i as int], ' '));
        assert(parts@.len() == seqs_view(parts@).len());
        assert(seqs_view(parts@)[0] == parts@[0]@);
        assert(parts@.len() >= 2 ==> seqs_view(parts@)[1] == parts@[1]@);
        let syl = copy_chars(parts[0].as_slice());
        let chs = if parts.len() >= 2 { copy_chars(parts[1].as_slice()) } else { Vec::new() };
        let ghost before = rows_view(rows@);
        rows.push((syl, chs));
        proof {
            assert(rows_view(rows@) =~= before.push(row_of(ls[i as int])));
            assert(ls.take(i + 1).map_values(|l: Seq<char>| row_of(l)) =~= ls.take(i as int).map_values(
                |l: Seq<char>| row_of(l),
            ).push(row_of(ls[i as int])));
        }
        i = i + 1;
    }
    assert(ls.take(lines.len() as int) =~= ls);
    rows
}

/// A copy of a character slice.
pub fn copy_chars(s: &[char]) -> (v: Vec<char>)
    ensures
        v@ == s@,
{
    let mut v: Vec<char> = Vec::new();
    let mut i: usize = 0;
    while i < s.len()
        invariant
            i <= s.len(),
            v@ == s@.take(i as int),
        decreases s.len() - i,
    {
        v.push(s[i]);
        i = i + 1;
        assert(v@ =~= s@.take(i as int));
    }
    assert(s@.take(s.len() as int) =~= s@);
    v
}

/// Whether two character sequences are equal.
pub fn same_chars(a: &[char], b: &[char]) -> (r: bool)
    ensures
        r == (a@ == b@),
{
    if a.len() != b.len() {
        return false;
    }
    let mut i: usize = 0;
    while i < a.len()
        invariant
            i <= a.len(),
            a.len() == b.len(),
            forall|j: int| 0 <= j < i ==> a@[j] == b@[j],
        decreases a.len() - i,
    {
        if a[i] != b[i] {
            return false;
        }
        i = i + 1;
    }
    assert(a@ =~= b@);
    true
}

/// The rows of the built-in table.
pub fn builtin_table() -> (rows: Vec<(Vec<char>, Vec<char>)>)
    ensures
        rows_view(rows@) == builtin_rows(),
{
    parse_table(BUILTIN_TABLE)
}


/// The characters `s[from..to]`.
pub fn slice_chars(s: &[char], from: usize, to: usize) -> (v: Vec<char>)
    requires
        from <= to <= s.len(),
    ensures
        v@ == s@.subrange(from as int, to as int),
{
    let mut v: Vec<char> = Vec::new();
    let mut i: usize = from;
    while i < to
        invariant
            from <= i <= to <= s.len(),
            v@ == s@.subrange(from as int, i as int),
        decreases to - i,
    {
        v.push(s[i]);
        i = i + 1;
        assert(v@ =~= s@.subrange(from as int, i as int));
    }
    v
}

// ---------------------------------------------------------------------
// Segmentation
// ---------------------------------------------------------------------

/// The longest length `k <= n` such that the first `k` characters of `s`
/// form a known syllable, or 0.
pub open spec fn longest_prefix(sylls: Seq<Seq<char>>, s: Seq<char>, n: int) -> int
    decreases n,
{
    if n <= 0 {
        0
    } else if sylls.contains(s.take(n)) {
        n
    } else {
        longest_prefix(sylls, s, n - 1)
    }
}

/// Length of the next segment: the longest known syllable at the front
/// (at most six letters), or one character when no syllable fits.
pub open spec fn piece_len(sylls: Seq<Seq<char>>, s: Seq<char>) -> int {
    let n = if s.len() < 6 { s.len() as int } else { 6 };
    let k = longest_prefix(sylls, s, n);
    if 1 <= k <= s.len() { k } else { 1 }
}

/// Greedy longest-match segmentation of `s` into syllables.
pub open spec fn segment(sylls: Seq<Seq<char>>, s: Seq<char>) -> Seq<Seq<char>>
    decreases s.len(),
{
    if s.len() == 0 {
        Seq::empty()
    } else {
        seq![s.take(piece_len(sylls, s))] + segment(sylls, s.skip(piece_len(sylls, s)))
    }
}

proof fn lemma_longest_prefix_range(sylls: Seq<Seq<char>>, s: Seq<char>, n: int)
    ensures
        0 <= longest_prefix(sylls, s, n) <= (if n < 0 { 0 } else { n }),
    decreases n,
{
    if n > 0 {
        lemma_longest_prefix_range(sylls, s, n - 1);
    }
}

/// Segmentation cuts the input into non-empty pieces whose concatenation
/// is the input.
pub proof fn lemma_segment_concat(sylls: Seq<Seq<char>>, s: Seq<char>)
    ensures
        segment(sylls, s).flatten() == s,
        forall|i: int| 0 <= i < segment(sylls, s).len() ==> #[trigger] segment(sylls, s)[i].len() > 0,
    decreases s.len(),
{
    if s.len() > 0 {
        let k = piece_len(sylls, s);
        lemma_segment_concat(sylls, s.skip(k));
        let rest = segment(sylls, s.skip(k));
        let whole = segment(sylls, s);
        assert(whole == seq![s.take(k)] + rest);
        assert(whole.drop_first() =~= rest);
        assert(whole.flatten() == whole[0] + whole.drop_first().flatten());
        assert(s.take(k) + s.skip(k) =~= s);
        assert forall|i: int| 0 <= i < whole.len() implies #[trigger] whole[i].len() > 0 by {
            if i > 0 {
                assert(whole[i] == rest[i - 1]);
            }
        }
    }
}

/// Pinyin parser: splits a string of letters into syllables.
pub struct PinyinParser {
    syllables: Vec<Vec<char>>,
}

impl PinyinParser {
    /// The syllables the parser knows, in table order.
    pub closed spec fn syllables(&self) -> Seq<Seq<char>> {
        seqs_view(self.syllables@)
    }

    /// A parser that knows the syllables of the built-in table.
    pub fn new() -> (p: PinyinParser)
        ensures
            p.syllables() == builtin_syllables(),
    {
        let rows = builtin_table();
        let mut syllables: Vec<Vec<char>> = Vec::new();
        let mut i: usize = 0;
        while i < rows.len()
            invariant
                i <= rows.len(),
                rows_view(rows@) == builtin_rows(),
                seqs_view(syllables@) == builtin_rows().take(i as int).map_values(
                    |r: (Seq<char>, Seq<char>)| r.0,
                ),
            decreases rows.len() - i,
        {
            let ghost before = seqs_view(syllables@);
            syllables.push(copy_chars(rows[i].0.as_slice()));
            proof {
                assert(rows_view(rows@)[i as int] == (rows@[i as int].0@, rows@[i as int].1@));
                assert(seqs_view(syllables@) =~= before.push(builtin_rows()[i as int].0));
                assert(builtin_rows().take(i + 1).map_values(|r: (Seq<char>, Seq<char>)| r.0)
                    =~= builtin_rows().take(i as int).map_values(|r: (Seq<char>, Seq<char>)| r.0).push(
                    builtin_rows()[i as int].0,
                ));
            }
            i = i + 1;
        }
        assert(builtin_rows().take(rows.len() as int) =~= builtin_rows());
        PinyinParser { syllables }
    }

    /// Whether `w` is a known syllable.
    pub fn is_syllable(&self, w: &[char]) -> (r: bool)
        ensures
            r == self.syllables().contains(w@),
    {
        let mut i: usize = 0;
        while i < self.syllables.len()
            invariant
                i <= self.syllables.len(),
                forall|j: int| 0 <= j < i ==> self.syllables()[j] != w@,
            decreases self.syllables.len() - i,
        {
            if same_chars(self.syllables[i].as_slice(), w) {
                assert(self.syllables()[i as int] == w@);
                return true;
            }
            i = i + 1;
        }
        assert(!self.syllables().contains(w@));
        false
    }

    /// Splits letters into syllables, taking at each point the longest
    /// known syllable of at most six letters, or a single letter when
    /// none fits.
    pub fn parse_chars(&self, s: &[char]) -> (r: Vec<Vec<char>>)
        ensures
            seqs_view(r@) == segment(self.syllables(), s@),
    {
        let ghost sy = self.syllables();
        let mut out: Vec<Vec<char>> = Vec::new();
        let mut i: usize = 0;
        assert(s@.skip(0) =~= s@);
        assert(seqs_view(out@) + segment(sy, s@) =~= segment(sy, s@));
        while i < s.len()
            invariant
                i <= s.len(),
                sy == self.syllables(),
                seqs_view(out@) + segment(sy, s@.skip(i as int)) == segment(sy, s@),
            decreases s.len() - i,
        {
            let ghost rest = s@.skip(i as int);
            let rem = s.len() - i;
            let mut n: usize = if rem < MAX_SYLLABLE_LEN { rem } else { MAX_SYLLABLE_LEN };
            let ghost n0: int = n as int;
            let mut k: usize = 0;
            while n > 0
                invariant_except_break
                    k == 0,
                invariant
                    i < s.len(),
                    rest == s@.skip(i as int),
                    sy == self.syllables(),
                    0 <= n <= n0,
                    n0 == (if rest.len() < 6 { rest.len() as int } else { 6 }),
                    i + n0 <= s.len(),
                    longest_prefix(sy, rest, n0) == longest_prefix(sy, rest, n as int),
                ensures
                    k == longest_prefix(sy, rest, n0),
                decreases n,
            {
                let w = slice_chars(s, i, i + n);
                assert(w@ =~= rest.take(n as int));
                if self.is_syllable(w.as_slice()) {
                    k = n;
                    break;
                }
                n = n - 1;
            }
            proof {
                lemma_longest_prefix_range(sy, rest, n0);
            }
            if k == 0 {
                k = 1;
            }
            assert(k == piece_len(sy, rest));
            let piece = slice_chars(s, i, i + k);
            let ghost before = seqs_view(out@);
            out.push(piece);
            proof {
                assert(piece@ =~= rest.take(k as int));
                assert(rest.skip(k as int) =~= s@.skip(i + k));
                assert(segment(sy, rest) == seq![rest.take(k as int)] + segment(sy, rest.skip(k as int)));
                assert(seqs_view(out@) =~= before.push(rest.take(k as int)));
                assert(seqs_view(out@) + segment(sy, s@.skip(i + k)) =~= before + segment(sy, rest));
            }
            i = i + k;
        }
        proof {
            assert(s@.skip(s.len() as int) =~= Seq::<char>::empty());
            assert(seqs_view(out@) + segment(sy, Seq::<char>::empty()) =~= seqs_view(out@));
        }
        out
    }

    /// Splits a pinyin string into syllables (see `parse_chars`).
    pub fn parse(&self, input: &str) -> (r: Vec<String>)
        ensures
            strings_view(r@) == segment(self.syllables(), input@),
    {
        let cs = chars_of(input);
        let pieces = self.parse_chars(cs.as_slice());
        let mut out: Vec<String> = Vec::new();
        let mut i: usize = 0;
        while i < pieces.len()
            invariant
                i <= pieces.len(),
                strings_view(out@) == seqs_view(pieces@).take(i as int),
            decreases pieces.len() - i,
        {
            let ghost before = strings_view(out@);
            let st = string_from_chars(pieces[i].as_slice());
            assert(st@ == seqs_view(pieces@)[i as int]);
            out.push(st);
            assert(strings_view(out@) =~= before.push(st@));
            assert(strings_view(out@) =~= seqs_view(pieces@).take(i + 1));
            i = i + 1;
        }
        assert(seqs_view(pieces@).take(pieces.len() as int) =~= seqs_view(pieces@));
        out
    }
}


// ---------------------------------------------------------------------
// Built-in characters and initial letters
// ---------------------------------------------------------------------

/// The built-in characters of syllable `p` (empty when `p` has no row).
pub open spec fn row_chars(rows: Seq<(Seq<char>, Seq<char>)>, p: Seq<char>) -> Seq<char> {
    let i = find_first(rows, |r: (Seq<char>, Seq<char>)| r.0 == p);
    if i < 0 { Seq::empty() } else { rows[i].1 }
}

/// The characters of the first row of `rows` whose syllable is `p`.
pub fn chars_in_rows(rows: &Vec<(Vec<char>, Vec<char>)>, p: &[char]) -> (r: Vec<char>)
    ensures
        r@ == row_chars(rows_view(rows@), p@),
{
    let ghost rv = rows_view(rows@);
    let ghost pred = |r: (Seq<char>, Seq<char>)| r.0 == p@;
    let mut i: usize = 0;
    while i < rows.len()
        invariant
            i <= rows.len(),
            rv == rows_view(rows@),
            pred == (|r: (Seq<char>, Seq<char>)| r.0 == p@),
            forall|j: int| 0 <= j < i ==> !pred(#[trigger] rv[j]),
        decreases rows.len() - i,
    {
        assert(rv[i as int] == (rows@[i as int].0@, rows@[i as int].1@));
        if same_chars(rows[i].0.as_slice(), p) {
            proof {
                lemma_find_first_at(rv, pred, i as int);
            }
            return copy_chars(rows[i].1.as_slice());
        }
        i = i + 1;
    }
    proof {
        lemma_find_first_none(rv, pred);
    }
    Vec::new()
}

/// The first character of each row whose syllable begins with letter
/// `c`, in row order, each character once.
pub open spec fn initial_chars(rows: Seq<(Seq<char>, Seq<char>)>, c: char) -> Seq<char>
    decreases rows.len(),
{
    if rows.len() == 0 {
        Seq::empty()
    } else {
        let acc = initial_chars(rows.drop_last(), c);
        let r = rows.last();
        if r.0.len() > 0 && r.0[0] == c && r.1.len() > 0 && !acc.contains(r.1[0]) { acc.push(r.1[0]) } else { acc }
    }
}

/// Most characters offered for a lone initial letter.
pub const MAX_INITIAL_CHARS: usize = 10;

/// The built-in candidate characters of `p`: the characters of its row;
/// for a single letter without a row (a lone initial such as `n`), the
/// first characters of the syllables that begin with it, each once, at
/// most ten.
pub open spec fn builtin_chars(rows: Seq<(Seq<char>, Seq<char>)>, p: Seq<char>) -> Seq<char> {
    let rc = row_chars(rows, p);
    if rc.len() == 0 && p.len() == 1 {
        let ic = initial_chars(rows, p[0]);
        if ic.len() <= MAX_INITIAL_CHARS { ic } else { ic.take(MAX_INITIAL_CHARS as int) }
    } else {
        rc
    }
}

/// Whether `c` is among the characters of `v`.
fn contains_char(v: &Vec<char>, c: char) -> (b: bool)
    ensures
        b == v@.contains(c),
{
    let mut i: usize = 0;
    while i < v.len()
        invariant
            i <= v.len(),
            forall|j: int| 0 <= j < i ==> v@[j] != c,
        decreases v.len() - i,
    {
        if v[i] == c {
            assert(v@[i as int] == c);
            return true;
        }
        i = i + 1;
    }
    false
}

/// The built-in candidate characters of `p` in the table `rows` (see
/// `builtin_chars`).
pub fn builtin_chars_in(rows: &Vec<(Vec<char>, Vec<char>)>, p: &[char]) -> (r: Vec<char>)
    ensures
        r@ == builtin_chars(rows_view(rows@), p@),
{
    let rc = chars_in_rows(rows, p);
    if rc.len() == 0 && p.len() == 1 {
        let c = p[0];
        let ghost rv = rows_view(rows@);
        let mut acc: Vec<char> = Vec::new();
        let mut i: usize = 0;
        while i < rows.len()
            invariant
                i <= rows.len(),
                rv == rows_view(rows@),
                acc@ == initial_chars(rv.take(i as int), c),
            decreases rows.len() - i,
        {
            proof {
                assert(rv.take(i + 1).drop_last() =~= rv.take(i as int));
                assert(rv[i as int] == (rows@[i as int].0@, rows@[i as int].1@));
            }
            let row = &rows[i];
            if row.0.len() > 0 && row.0[0] == c && row.1.len() > 0 && !contains_char(&acc, row.1[0]) {
                acc.push(row.1[0]);
            }
            i = i + 1;
        }
        assert(rv.take(rows.len() as int) =~= rv);
        if acc.len() > MAX_INITIAL_CHARS {
            acc.truncate(MAX_INITIAL_CHARS);
        }
        acc
    } else {
        rc
    }
}

/// The built-in candidate characters for a syllable, most frequent
/// first (see `builtin_chars`).
pub fn get_candidates(pinyin: &str) -> (r: Vec<char>)
    ensures
        r@ == builtin_chars(builtin_rows(), pinyin@),
{
    let rows = builtin_table();
    let p = chars_of(pinyin);
    builtin_chars_in(&rows, p.as_slice())
}

/// The known syllables that begin with letter `c`, in table order.
pub open spec fn syllables_with_initial(sylls: Seq<Seq<char>>, c: char) -> Seq<Seq<char>> {
    sylls.filter(has_initial(c))
}

/// The predicate "begins with letter `c`".
pub open spec fn has_initial(c: char) -> spec_fn(Seq<char>) -> bool {
    |s: Seq<char>| s.len() > 0 && s[0] == c
}

impl PinyinParser {
    /// The known syllables that begin with letter `c`, in table order.
    pub fn initial_syllables(&self, c: char) -> (r: Vec<Vec<char>>)
        ensures
            seqs_view(r@) == syllables_with_initial(self.syllables(), c),
    {
        let ghost sy = self.syllables();
        let ghost pred = has_initial(c);
        let mut out: Vec<Vec<char>> = Vec::new();
        let mut i: usize = 0;
        while i < self.syllables.len()
            invariant
                i <= self.syllables.len(),
                sy == self.syllables(),
                pred == has_initial(c),
                seqs_view(out@) == sy.take(i as int).filter(pred),
            decreases self.syllables.len() - i,
        {
            proof {
                reveal_with_fuel(Seq::<_>::filter, 1);
                assert(sy.take(i + 1).drop_last() =~= sy.take(i as int));
                assert(sy[i as int] == self.syllables@[i as int]@);
            }
            let w = &self.syllables[i];
            if w.len() > 0 && w[0] == c {
                let ghost before = seqs_view(out@);
                out.push(copy_chars(w.as_slice()));
                assert(seqs_view(out@) =~= before.push(sy[i as int]));
            }
            i = i + 1;
        }
        assert(sy.take(self.syllables.len() as int) =~= sy);
        out
    }
}

/// The letter `'a' + i`.
pub open spec fn nth_letter(i: int) -> char {
    (('a' as int) + i) as char
}

/// Some built-in syllable begins with letter `c`.
pub open spec fn begins_syllable(c: char) -> bool {
    syllables_with_initial(builtin_syllables(), c).len() > 0
}

/// The letters among the first `n` of `a`-`z` that begin some built-in
/// syllable, in alphabetical order.
pub open spec fn initial_letters(n: int) -> Seq<char> {
    Seq::new(n as nat, |i: int| nth_letter(i)).filter(|c: char| begins_syllable(c))
}

/// For every letter `a`-`z` that begins some built-in syllable, in
/// alphabetical order, the letter and those syllables in table order.
pub fn get_initial_map() -> (m: Vec<(char, Vec<String>)>)
    ensures
        m@.map_values(|e: (char, Vec<String>)| e.0) == initial_letters(26),
        forall|i: int| 0 <= i < m@.len() ==> {
            let (c, ps) = #[trigger] m@[i];
            &&& 'a' <= c <= 'z'
            &&& strings_view(ps@) == syllables_with_initial(builtin_syllables(), c)
            &&& ps@.len() > 0
        },
{
    let parser = PinyinParser::new();
    let mut m: Vec<(char, Vec<String>)> = Vec::new();
    let mut code: u32 = 'a' as u32;
    let ghost pred = |c: char| begins_syllable(c);
    while code <= 'z' as u32
        invariant
            'a' as u32 <= code <= 'z' as u32 + 1,
            parser.syllables() == builtin_syllables(),
            pred == (|c: char| begins_syllable(c)),
            m@.map_values(|e: (char, Vec<String>)| e.0) == initial_letters(code - 'a' as u32),
            forall|i: int| 0 <= i < m@.len() ==> {
                let (c, ps) = #[trigger] m@[i];
                &&& 'a' <= c <= 'z'
                &&& strings_view(ps@) == syllables_with_initial(builtin_syllables(), c)
                &&& ps@.len() > 0
            },
        decreases 'z' as u32 + 1 - code,
    {
        let c = letter_of(code);
        let ghost k: int = code - 'a' as u32;
        proof {
            reveal_with_fuel(Seq::<_>::filter, 1);
            let f = |i: int| nth_letter(i);
            assert(Seq::new((k + 1) as nat, f).drop_last() =~= Seq::new(k as nat, f));
            assert(nth_letter(k) == c);
        }
        let sy = parser.initial_syllables(c);
        let ghost before = m@.map_values(|e: (char, Vec<String>)| e.0);
        if sy.len() > 0 {
            let mut ps: Vec<String> = Vec::new();
            let mut j: usize = 0;
            while j < sy.len()
                invariant
                    j <= sy.len(),
                    strings_view(ps@) == seqs_view(sy@).take(j as int),
                decreases sy.len() - j,
            {
                let ghost before_ps = strings_view(ps@);
                let st = string_from_chars(sy[j].as_slice());
                assert(st@ == seqs_view(sy@)[j as int]);
                ps.push(st);
                assert(strings_view(ps@) =~= before_ps.push(st@));
                assert(strings_view(ps@) =~= seqs_view(sy@).take(j + 1));
                j = j + 1;
            }
            assert(seqs_view(sy@).take(sy.len() as int) =~= seqs_view(sy@));
            m.push((c, ps));
            assert(m@.map_values(|e: (char, Vec<String>)| e.0) =~= before.push(c));
        } else {
            assert(seqs_view(sy@).len() == 0);
        }
        code = code + 1;
    }
    m
}

fn letter_of(code: u32) -> (c: char)
    requires
        'a' as u32 <= code <= 'z' as u32,
    ensures
        c as u32 == code,
        'a' <= c <= 'z',
{
    crate::text::char_of_ascii(code)
}

// ---------------------------------------------------------------------
// Fuzzy syllables
// ---------------------------------------------------------------------

/// `s` begins with the two letters `a`, `b`.
pub open spec fn starts2(s: Seq<char>, a: char, b: char) -> bool {
    s.len() >= 2 && s[0] == a && s[1] == b
}

/// `s` ends with the two letters `a`, `b`.
pub open spec fn ends2(s: Seq<char>, a: char, b: char) -> bool {
    s.len() >= 2 && s[s.len() - 2] == a && s[s.len() - 1] == b
}

/// `s` ends with the three letters `a`, `b`, `c`.
pub open spec fn ends3(s: Seq<char>, a: char, b: char, c: char) -> bool {
    s.len() >= 3 && s[s.len() - 3] == a && s[s.len() - 2] == b && s[s.len() - 1] == c
}

/// The syllable with its initial swapped between zh/z, ch/c and sh/s.
pub open spec fn initial_variant(p: Seq<char>) -> Option<Seq<char>> {
    if starts2(p, 'z', 'h') || starts2(p, 'c', 'h') || starts2(p, 's', 'h') {
        Some(seq![p[0]] + p.skip(2))
    } else if p.len() >= 1 && (p[0] == 'z' || p[0] == 'c' || p[0] == 's') {
        Some(seq![p[0], 'h'] + p.skip(1))
    } else {
        None
    }
}

/// The syllable with its final swapped between an/ang, en/eng and in/ing.
pub open spec fn final_variant(p: Seq<char>) -> Option<Seq<char>> {
    if ends3(p, 'a', 'n', 'g') || ends3(p, 'e', 'n', 'g') || ends3(p, 'i', 'n', 'g') {
        Some(p.drop_last())
    } else if ends2(p, 'a', 'n') || ends2(p, 'e', 'n') || ends2(p, 'i', 'n') {
        Some(p.push('g'))
    } else {
        None
    }
}

/// The syllable itself, then its initial variant, its final variant and
/// the variant with both swapped, each where it exists.
pub open spec fn fuzzy_matches(p: Seq<char>) -> Seq<Seq<char>> {
    let iv = initial_variant(p);
    let fv = final_variant(p);
    let a: Seq<Seq<char>> = seq![p];
    let b = match iv { Some(v) => a.push(v), None => a };
    let c = match fv { Some(v) => b.push(v), None => b };
    match iv {
        Some(v) => match final_variant(v) { Some(w) => if fv is Some { c.push(w) } else { c }, None => c },
        None => c,
    }
}

fn initial_variant_exec(p: &[char]) -> (r: Option<Vec<char>>)
    ensures
        match r { Some(v) => initial_variant(p@) == Some(v@), None => initial_variant(p@) is None },
{
    let n = p.len();
    if n >= 2 && p[1] == 'h' && (p[0] == 'z' || p[0] == 'c' || p[0] == 's') {
        let mut v: Vec<char> = Vec::new();
        v.push(p[0]);
        let rest = slice_chars(p, 2, n);
        let mut i: usize = 0;
        while i < rest.len()
            invariant
                i <= rest.len(),
                v@ == seq![p@[0]] + rest@.take(i as int),
            decreases rest.len() - i,
        {
            v.push(rest[i]);
            i = i + 1;
            assert(v@ =~= seq![p@[0]] + rest@.take(i as int));
        }
        assert(rest@.take(rest.len() as int) =~= p@.skip(2));
        Some(v)
    } else if n >= 1 && (p[0] == 'z' || p[0] == 'c' || p[0] == 's') {
        let mut v: Vec<char> = Vec::new();
        v.push(p[0]);
        v.push('h');
        let rest = slice_chars(p, 1, n);
        let mut i: usize = 0;
        while i < rest.len()
            invariant
                i <= rest.len(),
                v@ == seq![p@[0], 'h'] + rest@.take(i as int),
            decreases rest.len() - i,
        {
            v.push(rest[i]);
            i = i + 1;
            assert(v@ =~= seq![p@[0], 'h'] + rest@.take(i as int));
        }
        assert(rest@.take(rest.len() as int) =~= p@.skip(1));
        Some(v)
    } else {
        None
    }
}

fn final_variant_exec(p: &[char]) -> (r: Option<Vec<char>>)
    ensures
        match r { Some(v) => final_variant(p@) == Some(v@), None => final_variant(p@) is None },
{
    let n = p.len();
    if n >= 3 && p[n - 2] == 'n' && p[n - 1] == 'g' && (p[n - 3] == 'a' || p[n - 3] == 'e' || p[n - 3] == 'i') {
        let v = slice_chars(p, 0, n - 1);
        assert(v@ =~= p@.drop_last());
        Some(v)
    } else if n >= 2 && p[n - 1] == 'n' && (p[n - 2] == 'a' || p[n - 2] == 'e' || p[n - 2] == 'i') {
        let mut v = copy_chars(p);
        v.push('g');
        Some(v)
    } else {
        None
    }
}

/// `s` ends in one of the finals an, en, in.
pub open spec fn ends_in_n(s: Seq<char>) -> bool {
    s.len() >= 2 && s.last() == 'n' && (s[s.len() - 2] == 'a' || s[s.len() - 2] == 'e' || s[s.len() - 2] == 'i')
}

/// `s` ends in one of the finals ang, eng, ing.
pub open spec fn ends_in_ng(s: Seq<char>) -> bool {
    s.len() >= 3 && s.last() == 'g' && s[s.len() - 2] == 'n'
        && (s[s.len() - 3] == 'a' || s[s.len() - 3] == 'e' || s[s.len() - 3] == 'i')
}

/// `s` begins with one of the retroflex initials zh, ch, sh.
pub open spec fn begins_retroflex(s: Seq<char>) -> bool {
    s.len() >= 2 && s[1] == 'h' && (s[0] == 'z' || s[0] == 'c' || s[0] == 's')
}

/// `s` begins with one of the flat initials z, c, s (not followed by h).
pub open spec fn begins_flat(s: Seq<char>) -> bool {
    s.len() >= 1 && (s[0] == 'z' || s[0] == 'c' || s[0] == 's') && !(s.len() >= 2 && s[1] == 'h')
}

/// The syllable with zh/ch/sh and z/c/s swapped, when it begins with one.
pub open spec fn swapped_initial(s: Seq<char>) -> Seq<char> {
    if begins_retroflex(s) { seq![s[0]] + s.skip(2) } else { seq![s[0], 'h'] + s.skip(1) }
}

/// The syllable with an/en/in and ang/eng/ing swapped, when it ends in one.
pub open spec fn swapped_final(s: Seq<char>) -> Seq<char> {
    if ends_in_ng(s) { s.drop_last() } else { s.push('g') }
}

/// Swapping the initial keeps the final.
proof fn lemma_swap_initial_keeps_final(p: Seq<char>)
    requires
        begins_retroflex(p) || begins_flat(p),
    ensures
        ends_in_n(p) ==> ends_in_n(swapped_initial(p)),
        ends_in_ng(p) ==> ends_in_ng(swapped_initial(p)),
{
    let v = swapped_initial(p);
    if begins_retroflex(p) {
        assert(v.len() == p.len() - 1);
        assert forall|k: int| 1 <= k < v.len() implies v[k] == p[k + 1] by {}
    } else {
        assert(v.len() == p.len() + 1);
        assert forall|k: int| 2 <= k < v.len() implies v[k] == p[k - 1] by {}
    }
    if ends_in_n(p) && begins_retroflex(p) {
        assert(p.len() >= 4);
    }
    if ends_in_ng(p) && begins_retroflex(p) {
        assert(p.len() >= 5);
    }
}

/// The fuzzy matches of a syllable hold the syllable itself, the syllable
/// with zh/z, ch/c or sh/s swapped when it begins with one, the syllable
/// with an/ang, en/eng or in/ing swapped when it ends in one, and, when it
/// has both, the syllable with both swapped.
pub proof fn lemma_fuzzy_matches_swap(p: Seq<char>)
    ensures
        fuzzy_matches(p).contains(p),
        begins_retroflex(p) || begins_flat(p) ==> fuzzy_matches(p).contains(swapped_initial(p)),
        ends_in_n(p) || ends_in_ng(p) ==> fuzzy_matches(p).contains(swapped_final(p)),
        (begins_retroflex(p) || begins_flat(p)) && (ends_in_n(p) || ends_in_ng(p))
            ==> fuzzy_matches(p).contains(swapped_final(swapped_initial(p))),
{
    let f = fuzzy_matches(p);
    let iv = initial_variant(p);
    let fv = final_variant(p);
    assert(f[0] == p);
    if begins_retroflex(p) || begins_flat(p) {
        lemma_swap_initial_keeps_final(p);
        assert(iv == Some(swapped_initial(p)));
        assert(f[1] == swapped_initial(p));
        if ends_in_n(p) || ends_in_ng(p) {
            assert(fv == Some(swapped_final(p)));
            assert(f[2] == swapped_final(p));
            let v = swapped_initial(p);
            assert(final_variant(v) == Some(swapped_final(v)));
            assert(f[3] == swapped_final(v));
        }
    } else if ends_in_n(p) || ends_in_ng(p) {
        assert(iv is None);
        assert(fv == Some(swapped_final(p)));
        assert(f[1] == swapped_final(p));
    }
}

/// Fuzzy pinyin matcher: equates zh/z, ch/c, sh/s, an/ang, en/eng and in/ing.
pub struct FuzzyPinyinMatcher {}

impl FuzzyPinyinMatcher {
    pub fn new() -> (m: FuzzyPinyinMatcher) {
        FuzzyPinyinMatcher {}
    }

    /// The syllable and its fuzzy variants (see `fuzzy_matches`).
    pub fn fuzzy_chars(&self, p: &[char]) -> (r: Vec<Vec<char>>)
        ensures
            seqs_view(r@) == fuzzy_matches(p@),
    {
        let mut out: Vec<Vec<char>> = Vec::new();
        out.push(copy_chars(p));
        let iv = initial_variant_exec(p);
        let fv = final_variant_exec(p);
        let ghost a: Seq<Seq<char>> = seq![p@];
        assert(seqs_view(out@) =~= a);
        let ghost b = match initial_variant(p@) { Some(v) => a.push(v), None => a };
        match &iv {
            Some(v) => {
                out.push(copy_chars(v.as_slice()));
            }
            None => {}
        }
        assert(seqs_view(out@) =~= b);
        let ghost c = match final_variant(p@) { Some(v) => b.push(v), None => b };
        match &fv {
            Some(v) => {
                out.push(copy_chars(v.as_slice()));
            }
            None => {}
        }
        assert(seqs_view(out@) =~= c);
        match &iv {
            Some(v) => {
                let both = final_variant_exec(v.as_slice());
                match both {
                    Some(w) => {
                        if fv.is_some() {
                            out.push(w);
                            assert(seqs_view(out@) =~= c.push(final_variant(v@)->0));
                        }
                    }
                    None => {}
                }
            }
            None => {}
        }
        out
    }

    /// The syllable and its fuzzy variants, as strings.
    pub fn get_fuzzy_matches(&self, pinyin: &str) -> (r: Vec<String>)
        ensures
            strings_view(r@) == fuzzy_matches(pinyin@),
    {
        let cs = chars_of(pinyin);
        let vs = self.fuzzy_chars(cs.as_slice());
        let mut out: Vec<String> = Vec::new();
        let mut i: usize = 0;
        while i < vs.len()
            invariant
                i <= vs.len(),
                strings_view(out@) == seqs_view(vs@).take(i as int),
            decreases vs.len() - i,
        {
            let ghost before = strings_view(out@);
            let st = string_from_chars(vs[i].as_slice());
            assert(st@ == seqs_view(vs@)[i as int]);
            out.push(st);
            assert(strings_view(out@) =~= before.push(st@));
            assert(strings_view(out@) =~= seqs_view(vs@).take(i + 1));
            i = i + 1;
        }
        assert(seqs_view(vs@).take(vs.len() as int) =~= seqs_view(vs@));
        out
    }
}

} // verus!
