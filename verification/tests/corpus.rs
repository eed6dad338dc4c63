use nfm_core::Parser;

#[test]
fn mixed_documents_1() {
    let cases: &[(&str, &str)] = &[
        ("0~\n|1++*!=(\\|\n", "<p>0~\n|1<ins>*!=(|</ins></p>\n"),
        ("  | (~~\r\n|-^m2,3   \\[~~  =\r\n    \r\n> [+^)[x]|*]\r\n\r\n|-^m2,3 0\\|b", "<p>  | (<del>\n|-<sup>m2,3   [</del>  =\n  <br />\n&gt; [+</sup>)[x]|*]</p>\n\n<table><tbody><tr><th scope=\"row\" align=\"left\" valign=\"middle\" colspan=\"2\" rowspan=\"3\">0|b</th></tr></tbody></table>\n"),
        ("``` `|\n- - -\\*\n\n\n", "<pre><code lang=\" `|\">-&nbsp;-&nbsp;-\\*\n\n</code></pre>\n"),
        ("-  [x`a**b\n\\> [ ]~\\![\\*=])\n>  0\\~~)\n```~~__\n", "<ul><li>[x<code>a**b\n\\&gt; [ ]~![*=])\n&gt;  0~~)\n</code><code></code><del><em></em></del></li></ul>\n"),
        ("  - 1\\|\\\\]~[ ]\n", "<ul><li>1|\\]~<input type=\"checkbox\" disabled=\"disabled\" /></li></ul>\n"),
        ("  - \n-**=!~\n>!)\n", "<ul><li></li><li><strong>=!~\n&gt;!)</strong></li></ul>\n"),
        ("\\ \n|_$b_,_ _\\*~|a\\[=", "<p> \n|<em>$b</em>,<em> </em>*~|a[=</p>\n"),
        ("\\| [ ]\\*\\[ \n", "<p>| <input type=\"checkbox\" disabled=\"disabled\" />*[ </p>\n"),
        ("####### \n", "<h6># </h6>\n"),
        ("##### ~==] *\r\n>  \\|_)\\](\r\n    0\r\n    ~)\\`\r\n\r\n", "<h5>~<mark>] *</h5>\n</mark><blockquote>|<em>)\\](</em></blockquote>\n<p>    0\n    ~)`</p>\n\n"),
        ("|=[[+\n\\0. \\| \\[=0>+++\n\\ \n####### ++ \\^>0=[\n", "<table><tbody><tr><th scope=\"col\" align=\"center\" valign=\"baseline\" colspan=\"1\" rowspan=\"1\">[[+</th></tr></tbody></table>\n<p>0. | [=0&gt;<ins>+\n \n####### </ins> ^&gt;0=[</p>\n"),
        ("^_~~_x\n|_$b_,_ ~\n-\\[_^\n        - _b\\`~\n", "<p><sup><em><del></em>x\n|<em>$b</em>,<em> ~\n-[</em></sup>\n        - <em>b`~</em></del></p>\n"),
        ("\\> *x+\n```\n\\` ++[\\*~>\n### \n\n-]([\n", "<p>&gt; *x+\n<code></code><code>\n</code> <ins>[*~&gt;\n### </ins></p>\n\n<ul><li>]([</li></ul>\n"),
        ("\\> [ ]1~~\n##### =![x]\\*=`\n```b^~~)\n    [\\\\\\^\n>   =~~  _ ^**\n", "<p>&gt; <input type=\"checkbox\" disabled=\"disabled\" />1<del>\n##### =![x]*=<code>\n</code><code></code>b<sup></del>)\n    [\\^\n&gt;   =<del>  <em> </sup><strong></strong></em></del></p>\n"),
        ("    \\[=[x]\\![~~\n\\*)](\\|\n        - (", "<pre><code>\\[=[x]\\![~~</code></pre>\n<p>*)](|\n        - (</p>\n"),
        ("\n|!++](`x`_\n0. ~~  <\\*+\n", "\n<table><tbody><tr><td align=\"center\" valign=\"baseline\" colspan=\"1\" rowspan=\"1\">!<ins>](<code>x</code><em></em></ins></td></tr></tbody></table>\n<p>0. <del>  &lt;*+</del></p>\n"),
        ("- - -(]~ ](](\r\n    a\r\n", "<ul><li>- -(]~ ](](\na</li></ul>\n"),
        ("|1  \n  - \n\n        - \\<\\<\n1. _**_+~+0a", "<table><tbody><tr><td align=\"center\" valign=\"baseline\" colspan=\"1\" rowspan=\"1\"></td></tr></tbody></table>\n<p>  - </p>\n\n<ul><ul><ul><li>&lt;&lt;\n1. <em><strong></em>+~+0a</strong></li></ul></ul></ul>\n"),
        ("- - -\\*\\[)1~  )[\n  - \\<)]a>1\n> \\|*\\|\n", "<ul><li>- -*[)1~  )[</li><li>&lt;)]a&gt;1\n&gt; |*|</li></ul>\n"),
        ("## [[ ] \n", "<h2>[[ ] </h2>\n"),
        ("\n>[x]  ", "\n<blockquote><input type=\"checkbox\" disabled=\"disabled\" checked=\"checked\" /><br /></blockquote>\n"),
        ("-=**]\n", "<ul><li>=<strong>]</strong></li></ul>\n"),
        ("    0. |", "<ol><ol><li>|</li></ol></ol>\n"),
        ("### [)\n    0.  \\[^1\n#\\\\==*^ <=[ ]\n0.(\n>  +_a+  ~~\n>\n", "<h3>[)</h3>\n<ol><ol><li>[<sup>1\n#\\<mark>*</sup> &lt;=<input type=\"checkbox\" disabled=\"disabled\" /></mark></li></ol><li>(\n&gt;  +<em>a+  <del>\n&gt;</em></del></li></ol>\n"),
        ("\\# \\[\\[1++b*\\*\n| **]*~~0\n- - -=\\<<\n\n", "<p># [[1<ins>b**\n| <strong>]*<del>0\n- - -=&lt;&lt;</strong></del></ins></p>\n\n"),
        ("\\ 1[ ] == ](\n\\# [ ]=\\\n", "<p> 1<input type=\"checkbox\" disabled=\"disabled\" /> <mark> ](\n# <input type=\"checkbox\" disabled=\"disabled\" />=\\</mark></p>\n"),
        ("0. (\n#### ~=|**<\n", "<ol><li>(\n#### ~=|<strong>&lt;</strong></li></ol>\n"),
        ("  - !ab*~   \n####### \\[\n    - |1[`1*[\\![\n     *^\n###### |b(=`\\![[x]\n", "<ul><li>!ab*~ <br />\n####### [</li><ul><li>|1[<code>1*[![\n*^\n###### |b(=</code>![<input type=\"checkbox\" disabled=\"disabled\" checked=\"checked\" /></li></ul></ul>\n"),
        ("###  \n[ ]1\n", "<h3></h3>\n<p><input type=\"checkbox\" disabled=\"disabled\" />1</p>\n"),
        ("     x*\\|\n0.++=[ ][_\\![)b\n    - ](|<\\[x]a\\|x\n###### ~+b~~xx  \n", "<pre><code>&nbsp;x*\\|</code></pre>\n<p>0.<ins>=<input type=\"checkbox\" disabled=\"disabled\" />[<em>![)b\n    - ](|&lt;[x]a|x\n###### ~+b<del>xx<br /></em></del></ins></p>\n"),
        ("- [\n\\ `>**+\\![++~x\n1\\+=*~~\n### `0\\*\n    -   ==~](\n", "<ul><li>[\n\\ <code>&gt;**+![++~x\n1+=*~~\n### </code>0*</li><ul><li><mark>~](</mark></li></ul></ul>\n"),
        ("#### \\![\n", "<h4>![</h4>\n"),
        ("    ~~))*b\r\n", "<pre><code>~~))*b</code></pre>\n"),
        ("\\ \n>~)[*< =)\n|  ~ !\\|**\\\\\n", "<p> \n&gt;~)[*&lt; =)\n|  ~ !|<strong>\\</strong></p>\n"),
        ("|   \\|=*\\|\n\n-|]( _1a[x]\n", "<table><tbody><tr><td align=\"center\" valign=\"baseline\" colspan=\"1\" rowspan=\"1\">|=*|</td></tr></tbody></table>\n\n<ul><li>|]( <em>1a<input type=\"checkbox\" disabled=\"disabled\" checked=\"checked\" /></em></li></ul>\n"),
        ("\\ ==+][x]\n- - -`\n| b=^b]\n- - -**+\\[a[!|\n-`", "<p> <mark>+]<input type=\"checkbox\" disabled=\"disabled\" checked=\"checked\" />\n- - -<code>\n| b=^b]\n- - -**+[a[!|\n-</code></mark></p>\n"),
        ("- \\<]([\\=x\\[\\|\r\n  | ![x]\\< ]\\\r\n", "<ul><li>&lt;]([=x[|\n| ![x]&lt; ]\\</li></ul>\n"),
        ("```rs~  ](]*`]  \n|-^m2,3 \n##### \n|=|[==x\n|-^m2,3 _\n", "<pre><code lang=\"rs~  ](]*`]  \">|-^m2,3&nbsp;\n#####&nbsp;\n|=|[==x\n|-^m2,3&nbsp;_</code></pre>\n"),
        ("|   \n####### ``~!\n", "<table><tbody><tr><td align=\"center\" valign=\"baseline\" colspan=\"1\" rowspan=\"1\"></td></tr></tbody></table>\n<p>####### <code></code>~!</p>\n"),
        ("\n      b[=]a\\|\n\n- - -[ ]\n-*1b\\\\\n", "\n<pre><code>&nbsp;&nbsp;b[=]a\\|</code></pre>\n\n<ul><li>- -<input type=\"checkbox\" disabled=\"disabled\" /></li><li>*1b\\</li></ul>\n"),
    ];
    for (text, html) in cases {
        assert_eq!(*html, Parser::parse_str(text), "for {text:?}");
    }
}

#[test]
fn mixed_documents_2() {
    let cases: &[(&str, &str)] = &[
        ("\n>  ++~~\\*aa0 \n", "\n<blockquote><ins><del>*aa0 </del></ins></blockquote>\n"),
        ("  | (_0\n", "<p>  | (<em>0</em></p>\n"),
        ("|_$b_,_ a1_\n\n\n- - -\n0.\\|\n- - -b\n", "<table><tbody><tr><td align=\"right\" valign=\"bottom\" colspan=\"1\" rowspan=\"1\">a1<em></em></td></tr></tbody></table>\n\n\n<hr />\n<ol><li>|</li><li>- -b</li></ol>\n"),
        (">\n- - -=\n- - -\n_ \n>\n>  \n", "<blockquote></blockquote>\n<p>- - -=\n- - -\n<em> \n&gt;\n&gt;<br /></em></p>\n"),
        ("### !** +\n", "<h3>!<strong> +</h3>\n</strong>"),
        ("```rs ~+\n- - -*  \n#~~![", "<pre><code lang=\"rs ~+\">-&nbsp;-&nbsp;-*&nbsp;&nbsp;\n#~~![</code></pre>\n"),
        ("     *!\\<~|\n###### `(` >[\n", "<pre><code>&nbsp;*!\\&lt;~|</code></pre>\n<p>###### <code>(</code> &gt;[</p>\n"),
        ("\n- - -[\n    - >\\\\|  [x]\n", "\n<ul><li>- -[</li><ul><li>&gt;\\|  <input type=\"checkbox\" disabled=\"disabled\" checked=\"checked\" /></li></ul></ul>\n"),
        ("|_$b_,_ **  +[x]*)", "<table><tbody><tr><td align=\"right\" valign=\"bottom\" colspan=\"1\" rowspan=\"1\"><strong>  +<input type=\"checkbox\" disabled=\"disabled\" checked=\"checked\" />*)</strong></td></tr></tbody></table>\n"),
        ("\\ b\\*_\\<\n### \\![[x]0 \n| \\x b\\*\n", "<p> b*<em>&lt;\n### ![<input type=\"checkbox\" disabled=\"disabled\" checked=\"checked\" />0 \n| \\x b*</em></p>\n"),
        ("  | a>])\n        - [ ]+[ ][\n>[++0=1+\\<!\n", "<p>  | a&gt;])\n        - <input type=\"checkbox\" disabled=\"disabled\" />+<input type=\"checkbox\" disabled=\"disabled\" />[\n&gt;[<ins>0=1+&lt;!</ins></p>\n"),
        (">  \r\n#1~![x]\r\n####   ](\r\n\\> \\*^==[ ]0\\*`\r\n```rs(=](*==^++\r\n    | b[x]", "<blockquote><br /></blockquote>\n<p>#1~![x]\n####   ](\n&gt; *<sup><mark><input type=\"checkbox\" disabled=\"disabled\" />0*<code>\n</code><code></code>rs(=](*</mark></sup><ins>\n    | b<input type=\"checkbox\" disabled=\"disabled\" checked=\"checked\" /></ins></p>\n"),
        ("1. !_\n0.0|~~*[ ]\\![]_\n|_$b_,_ **====0\n==\n## ~\\\\\\[\n\\| )_+++1\n", "<p>1. !<em>\n0.0|<del>*<input type=\"checkbox\" disabled=\"disabled\" />![]</em>\n|<em>$b</em>,<em> <strong><mark></mark>0\n<mark>\n## ~\\[\n| )</em><ins>+1</strong></del></ins></mark></p>\n"),
        ("> ]x~~\n\n  | \n|=^\\|]](^\n", "<blockquote>]x<del></del></blockquote>\n\n<p>  | \n|=<sup>|]](</sup></p>\n"),
        ("\n| [*<~~\n\\\\~~=\n", "\n<table><tbody><tr><td align=\"center\" valign=\"baseline\" colspan=\"1\" rowspan=\"1\">[*&lt;<del></del></td></tr></tbody></table>\n<p>\\<del>=</del></p>\n"),
        ("    \\\\|\n\n", "<pre><code>\\\\|</code></pre>\n\n"),
        ("\\0. (~~\\|~\n\n\\ ~~`` \n- - -]\n\\-  \\\\[b<x==\n", "<p>0. (<del>|~</del></p>\n\n<p> <del><code></code> \n- - -]\n-  \\[b&lt;x<mark></del></mark></p>\n"),
        ("  | ++^\\[^](", "<p>  | <ins><sup>[</sup>](</ins></p>\n"),
        ("        - (b[x]===\n\\`\n\\> )\\|) _bb1", "<ul><ul><ul><li>(b<input type=\"checkbox\" disabled=\"disabled\" checked=\"checked\" /><mark>=\n`\n\\&gt; )|) <em>bb1</em></mark></li></ul></ul></ul>\n"),
        ("####### \\==**\n\n-_)>1a\\![++\n\n# *\\\\", "<h6># ==<strong></h6>\n</strong>\n<ul><li><em>)&gt;1a![<ins></em></ins></li></ul>\n\n<h1>*\\</h1>\n"),
        ("1. !\\[ ]\\*<0`\n  - [[x]\\< 0++\n`~\\<][\\)\n", "<p>1. ![ ]*&lt;0<code>\n  - [[x]&lt; 0++\n</code>~&lt;][\\)</p>\n"),
        ("\\# [ ]++_a0\n  | +^^\n\n-[x]a!x[\n", "<p># <input type=\"checkbox\" disabled=\"disabled\" /><ins><em>a0\n  | +<sup></sup></em></ins></p>\n\n<ul><li><input type=\"checkbox\" disabled=\"disabled\" checked=\"checked\" />a!x[</li></ul>\n"),
        ("|-^m2,3 \\|*~_\n## b1\n", "<table><tbody><tr><th scope=\"row\" align=\"left\" valign=\"middle\" colspan=\"2\" rowspan=\"3\">|*~<em></em></th></tr></tbody></table>\n<p>## b1</p>\n"),
        ("###### \\[]<++**](  \n\\> \n-  |++[\\[\n\n\n> b\\![==\n", "<h6>[]&lt;<ins><strong>](<br /></h6>\n</strong></ins><p>&gt; \n-  |<ins>[[</ins></p>\n\n\n<blockquote>b![<mark></mark></blockquote>\n"),
        ("1]~\n(]_\\\\ *0\n\n\n", "<p>1]~\n(]<em>\\ *0</em></p>\n\n\n"),
        ("\n```[\n|]((\\[^*=\n  | ](", "\n<pre><code lang=\"[\">|]((\\[^*=\n&nbsp;&nbsp;|&nbsp;](</code></pre>\n"),
        ("==1] \\_\n\n| b~x|*)b\n####### ]x\n\n", "<p><mark>1] _</mark></p>\n\n<table><tbody><tr><td align=\"center\" valign=\"baseline\" colspan=\"1\" rowspan=\"1\">b~x</td><td align=\"center\" valign=\"baseline\" colspan=\"1\" rowspan=\"1\">*)b</td></tr></tbody></table>\n<p>####### ]x</p>\n\n"),
        ("\\0. ~]([a\n\n|-^m2,3 )_\n0. (\n    +][ ]+a+\n", "<p>0. ~]([a</p>\n\n<table><tbody><tr><th scope=\"row\" align=\"left\" valign=\"middle\" colspan=\"2\" rowspan=\"3\">)<em></em></th></tr></tbody></table>\n<p>0. (\n    +]<input type=\"checkbox\" disabled=\"disabled\" />+a+</p>\n"),
        ("\\- \n> =\n", "<p>- \n&gt; =</p>\n"),
        ("\\>   \n####### +[ ][**!", "<p>&gt; <br />\n####### +<input type=\"checkbox\" disabled=\"disabled\" />[<strong>!</strong></p>\n"),
        ("####### \\<a+== ", "<h6># &lt;a+<mark> </h6>\n</mark>"),
        (">[x]\\!", "<blockquote><input type=\"checkbox\" disabled=\"disabled\" checked=\"checked\" />\\!</blockquote>\n"),
        ("####### \\![~]+\\[\n- - -_+0  ==\n", "<h6># ![~]+[</h6>\n<ul><li>- -<em>+0  <mark></em></mark></li></ul>\n"),
        ("\n>\\|[\\![\\![[ ]\n# <_=\n", "\n<blockquote>|[![![[ ]</blockquote>\n<p># &lt;<em>=</em></p>\n"),
        (">  \n####### _  \n", "<blockquote><br /></blockquote>\n<p>####### <em><br /></em></p>\n"),
        ("```rs![[x]\n0.\n", "<pre><code lang=\"rs![[x]\">0.</code></pre>\n"),
        ("```=]=x+", "<pre><code lang=\"=]=x+\"></code></pre>\n"),
        ("    \\\\++0^^**\n", "<pre><code>\\\\++0^^**</code></pre>\n"),
        ("#[ ][ ]\n\n  | ]![x]+\\\n|_$b_,_ (!\n>1", "<h1><input type=\"checkbox\" disabled=\"disabled\" /><input type=\"checkbox\" disabled=\"disabled\" /></h1>\n\n<p>  | ]![x]+\\\n|<em>$b</em>,<em> (!\n&gt;1</em></p>\n"),
        ("|-^m2,3 \\\\", "<table><tbody><tr><th scope=\"row\" align=\"left\" valign=\"middle\" colspan=\"2\" rowspan=\"3\">\\</th></tr></tbody></table>\n"),
    ];
    for (text, html) in cases {
        assert_eq!(*html, Parser::parse_str(text), "for {text:?}");
    }
}

#[test]
fn mixed_documents_3() {
    let cases: &[(&str, &str)] = &[
        ("    =\\* \n\n> =\\![  ^^\n\n\n", "<pre><code>=\\*&nbsp;</code></pre>\n\n<blockquote>=![  <sup></sup></blockquote>\n\n\n"),
        ("](**a\\>=>_\n    - 1_[b)^\n####### [***<~b\n- (~  ](*\n1. [(_^\n", "<p>](<strong>a\\&gt;=&gt;<em>\n    - 1</em>[b)<sup>\n####### [</strong>*&lt;~b\n- (~  ](*\n1. [(<em></sup></em></p>\n"),
        ("#### !1\\![\\\\[<1==\n](_\\\\+) \n", "<h4>!1![\\[&lt;1<mark></h4>\n</mark><p>](<em>\\+) </em></p>\n"),
        ("```rs~+\\*\n## ]+[ ]\n\\ *(\n", "<pre><code lang=\"rs~+\\*\">##&nbsp;]+[&nbsp;]\n\\&nbsp;*(</code></pre>\n"),
        ("    x  `\\<![\n", "<pre><code>x&nbsp;&nbsp;`\\&lt;![</code></pre>\n"),
        (">  +\\<\n\n\n    0. )\n", "<blockquote>+&lt;</blockquote>\n\n\n<ol><ol><li>)</li></ol></ol>\n"),
        ("\n-x\\\\\\![\n\\| \\![** |\n", "\n<ul><li>x\\![\n| ![<strong> |</strong></li></ul>\n"),
        ("##### **0*](\n#### \n", "<h5><strong>0*](</h5>\n</strong><h4></h4>\n"),
        ("``` ==++\\\\a\n", "<pre><code lang=\" ==++\\\\a\"></code></pre>\n"),
        ("  | ~++*==\n#**\n| *~~ ]\n|=>_\n", "<p>  | ~<ins>*<mark>\n#<strong>\n| *<del> ]\n|=&gt;<em></strong></em></del></ins></mark></p>\n"),
        ("\\> ~!]\n     ==)<_~", "<p>&gt; ~!]\n     <mark>)&lt;<em>~</em></mark></p>\n"),
        ("```\n\\\\x_\\\\\n- +[\\<=[ ]~\n|)]==(~a]`\n\\> 1~b]( \n>", "<pre><code>\\\\x_\\\\\n-&nbsp;+[\\&lt;=[&nbsp;]~\n|)]==(~a]`\n\\&gt;&nbsp;1~b](&nbsp;\n&gt;</code></pre>\n"),
        ("    0. _\n\n- |=](_)\\|_\n>  \n\n", "<ol><ol><li><em></em></li></ol></ol>\n\n<ul><li>|=](<em>)|</em>\n&gt;<br /></li></ul>\n\n"),
        ("\\> +0\n- >](*\n>\n~+[x]\\[\n\\| ", "<p>&gt; +0\n- &gt;](*\n&gt;\n~+<input type=\"checkbox\" disabled=\"disabled\" checked=\"checked\" />[\n| </p>\n"),
        ("```rs+(**\\[\\[>=<\n|-^m2,3  \\![ \n\\`~~\\++ )+~`\n        - ^* [x]\n\n", "<pre><code lang=\"rs+(**\\[\\[&gt;=&lt;\">|-^m2,3&nbsp;&nbsp;\\![&nbsp;\n`~~\\++&nbsp;)+~`\n&nbsp;&nbsp;&nbsp;&nbsp;&nbsp;&nbsp;&nbsp;&nbsp;-&nbsp;^*&nbsp;[x]\n</code></pre>\n"),
        ("```rs+<~0\n\\- +a**=[\\|\n####### ]~^]1~)\n|-^m2,3 ", "<pre><code lang=\"rs+&lt;~0\">\\-&nbsp;+a**=[\\|\n#######&nbsp;]~^]1~)\n|-^m2,3&nbsp;</code></pre>\n"),
        ("-\r\n        - b]\r\n0. ~+]>[ ]x|\r\n", "<ul><li></li><ul><ul><li>b]</li></ul></ul><li>~+]&gt;<input type=\"checkbox\" disabled=\"disabled\" />x|</li></ul>\n"),
        ("#### \n>__|\n#~>~(\\![\\![\n    - )", "<h4></h4>\n<blockquote><em></em>|</blockquote>\n<p>#~&gt;~(![![\n    - )</p>\n"),
        ("\n\n0.]([x]+0=)++", "\n\n<ol><li>](<input type=\"checkbox\" disabled=\"disabled\" checked=\"checked\" />+0=)<ins></ins></li></ol>\n"),
        ("     [ ]b[x]]+\n##### ++!\n###### ==_>](\n-_\n", "<pre><code>&nbsp;[&nbsp;]b[x]]+</code></pre>\n<p>##### <ins>!\n###### <mark><em>&gt;](\n-</em></ins></mark></p>\n"),
        ("\\- >\n", "<p>- &gt;</p>\n"),
        ("``` b\n", "<pre><code lang=\" b\"></code></pre>\n"),
        ("     <~~  `  ++\n", "<pre><code>&nbsp;&lt;~~&nbsp;&nbsp;`&nbsp;&nbsp;++</code></pre>\n"),
        ("|=>\\\\!\n", "<table><tbody><tr><th scope=\"col\" align=\"center\" valign=\"baseline\" colspan=\"1\" rowspan=\"1\">&gt;\\!</th></tr></tbody></table>\n"),
        ("\r\n```++*`^\\\\[x]\r\n| ~[x]\\<~*\\[**\r\n", "\n<pre><code lang=\"++*`^\\\\[x]\">|&nbsp;~[x]\\&lt;~*\\[**</code></pre>\n"),
        ("-+= \n\\`\n\n| =[\\*\\![", "<ul><li>+= \n`</li></ul>\n\n<table><tbody><tr><td align=\"center\" valign=\"baseline\" colspan=\"1\" rowspan=\"1\">=[*![</td></tr></tbody></table>\n"),
        ("```rs+ !_ 1<\n\n0.01\\|\\[0\n>  *)](*)\n####   ^_<\n    <\n", "<pre><code lang=\"rs+ !_ 1&lt;\">\n0.01\\|\\[0\n&gt;&nbsp;&nbsp;*)](*)\n####&nbsp;&nbsp;&nbsp;^_&lt;\n&nbsp;&nbsp;&nbsp;&nbsp;&lt;</code></pre>\n"),
        ("    \n", "<pre><code></code></pre>\n"),
        ("\\# \n- +\\![   \\[\n|0^[ ]\n|_$b_,_ _\n\\|\\![1^>\n\\- ~x\\\\\n", "<p># \n- +![   [\n|0<sup><input type=\"checkbox\" disabled=\"disabled\" />\n|<em>$b</em>,<em> </em>\n|![1</sup>&gt;\n- ~x\\</p>\n"),
        ("  | **\n- - -0=~~\n# \n", "<p>  | <strong>\n- - -0=<del>\n# </strong></del></p>\n"),
        ("  | !b[](>\n\n", "<p>  | !b[](&gt;</p>\n\n"),
        ("```rs1>\n\n\\ \n", "<pre><code lang=\"rs1&gt;\">\n\\&nbsp;</code></pre>\n"),
        ("|_$b_,_ \\*~~!\n##  [x]\n    - **\n \n     =a\\<\n###### (   >_  x", "<table><tbody><tr><td align=\"right\" valign=\"bottom\" colspan=\"1\" rowspan=\"1\">*<del>!</del></td></tr></tbody></table>\n<p>##  <input type=\"checkbox\" disabled=\"disabled\" checked=\"checked\" />\n    - <strong>\n \n     =a&lt;\n###### (   &gt;<em>  x</strong></em></p>\n"),
        ("```**\n#~~\n", "<pre><code lang=\"**\">#~~</code></pre>\n"),
        ("\n\\| [~+~\n\n|=a\n\n\\ |_==!==", "\n<p>| [~+~</p>\n\n<table><tbody><tr><th scope=\"col\" align=\"center\" valign=\"baseline\" colspan=\"1\" rowspan=\"1\">a</th></tr></tbody></table>\n\n<p> |<em><mark>!</mark></em></p>\n"),
        ("###### \\< [==\\[](\n1. \n    0. = _`_*\n`**=_[**!a\n0.0\n    ", "<h6>&lt; [<mark>[](</h6>\n</mark><p>1. \n    0. = <em><code>_*\n</code><strong>=</em>[</strong>!a\n0.0\n  <br /></p>\n"),
        ("##### >[] \n- ``[__>\n<\n", "<h5>&gt;[] </h5>\n<ul><li><code></code>[<em></em>&gt;\n&lt;</li></ul>\n"),
        ("```rs  \n#]\n0.x\\[0\\^[x]x\n|x=<\n    0. !\\*=\\[ ~\n###### \n", "<pre><code lang=\"rs  \">#]\n0.x\\[0\\^[x]x\n|x=&lt;\n&nbsp;&nbsp;&nbsp;&nbsp;0.&nbsp;!\\*=\\[&nbsp;~\n######&nbsp;</code></pre>\n"),
        ("\\0. \\|>\n> ][ ]x*~**\n- |=a~ ++\\\\\n\n|=\\![==\\\\*\n", "<p>0. |&gt;\n&gt; ]<input type=\"checkbox\" disabled=\"disabled\" />x*~<strong>\n- |=a~ <ins>\\</strong></ins></p>\n\n<table><tbody><tr><th scope=\"col\" align=\"center\" valign=\"baseline\" colspan=\"1\" rowspan=\"1\">![<mark>\\*</mark></th></tr></tbody></table>\n"),
        ("\\> \\|\n        - *~>\\\\* ===\n  - *\n    >^<a^\n", "<p>&gt; |\n        - *~&gt;\\* <mark>=\n  - *\n    &gt;<sup>&lt;a</sup></mark></p>\n"),
    ];
    for (text, html) in cases {
        assert_eq!(*html, Parser::parse_str(text), "for {text:?}");
    }
}

#[test]
fn documents_with_open_spans_or_marked_up_images_1() {
    let cases: &[(&str, &str)] = &[
        ("\\0. +\\\\]\\<[`|\n\n\\\\ \\\\[x]_[\\[\\![\n#### `_**\n  - ](([x]+\n", "<p>0. +\\]&lt;[<code>|</code></p>\n\n<p>\\ \\<input type=\"checkbox\" disabled=\"disabled\" checked=\"checked\" /><em>[[![\n#### <code>_**\n  - ](([x]+</em></code></p>\n"),
        ("\\| 0ax\n    _1\\![\n\\ `[ ]\n\\# (  <", "<p>| 0ax\n    <em>1![\n <code>[ ]\n# (  &lt;</em></code></p>\n"),
        ("\n1. ~ `[|=\n    - \\*\\<\\[ ]\\[+\n\\> \n    - \n", "\n<p>1. ~ <code>[|=\n    - *&lt;[ ][+\n&gt; \n    - </code></p>\n"),
        ("\\# ^!\n\n#### >^+a\\<\n> ==_`\n    0. ===[ \\\\+*\\<\n", "<p># <sup>!</sup></p>\n\n<h4>&gt;<sup>+a&lt;</h4>\n</sup><blockquote><mark><em><code></em></mark></code></blockquote>\n<p>    0. <mark>=[ \\+*&lt;</mark></p>\n"),
        ("## ~[ ]**)01\n\n\n~\n\\ ` [x]**^]+b", "<h2>~<input type=\"checkbox\" disabled=\"disabled\" /><strong>)01</h2>\n</strong>\n\n<p>~\n <code> [x]**^]+b</code></p>\n"),
        ("\\# \n- ^[\\[+*(\\< \n", "<p># \n- <sup>[[+*(&lt; </sup></p>\n"),
        ("+~`\n>  +^]**++~[x]\n", "<p>+~<code>\n&gt;  +^]**++~[x]</code></p>\n"),
        ("0. `\n     [ ]+  `^b\n     =(0[ ]=\\|~~\n###### ))b1[x]\n    0x[x]\n    \\`", "<ol><li><code>\n[ ]+  </code><sup>b\n=(0<input type=\"checkbox\" disabled=\"disabled\" />=|<del>\n###### ))b1<input type=\"checkbox\" disabled=\"disabled\" checked=\"checked\" />\n0x<input type=\"checkbox\" disabled=\"disabled\" checked=\"checked\" />\n`</del></sup></li></ol>\n"),
        ("##### \\![  `\\<](]](\n", "<h5>![  <code>&lt;](]](</h5>\n</code>"),
        ("\\`\n| [\\[[\n# !++a\n-==\n\\\\(1<[\\<x+\n>+~=\\|a](\n", "<p><code>\n| [[[\n# !++a\n-==\n\\(1&lt;[&lt;x+\n&gt;+~=|a](</code></p>\n"),
        ("# `*[\n| [\\[x~~~a~~\n", "<h1><code>*[</h1>\n</code><table><tbody><tr><td align=\"center\" valign=\"baseline\" colspan=\"1\" rowspan=\"1\">[[x<del>~a</del></td></tr></tbody></table>\n"),
        ("####### \\![~**\n\\0.    =^==**   \n#++~[_~~`\n!\n", "<h6># ![~<strong></h6>\n</strong><p>0.    =<sup><mark><strong> <br />\n#<ins>~[<em><del><code>\n!</strong></em></del></ins></mark></code></sup></p>\n"),
        ("\\- ++\n|-^m2,3 ]\\\\=\n|_$b_,_ *_\n-\n", "<p>- <ins>\n|-<sup>m2,3 ]\\=\n|<em>$b</em>,<em> *</em>\n-</ins></sup></p>\n"),
        ("\\# <b^[x]\n", "<p># &lt;b<sup><input type=\"checkbox\" disabled=\"disabled\" checked=\"checked\" /></sup></p>\n"),
        ("# +`++[ ]\r\n```1++=== \r\n", "<h1>+<code>++[ ]</h1>\n</code><pre><code lang=\"1++=== \"></code></pre>\n"),
        ("\\\\>+`\n\n=\\<++\n", "<p>\\&gt;+<code></code></p>\n\n<p>=&lt;<ins></ins></p>\n"),
        ("  - <|[ ]!\n>__\\*1~~\n    x\n\\<\\|\\[`++\\\\\n\\`=\\*\\<|\n]++a\n", "<ul><li>&lt;|<input type=\"checkbox\" disabled=\"disabled\" />!\n&gt;<em></em>*1<del>\nx\n&lt;|[<code>++\\\n`=*&lt;|\n]++a</del></code></li></ul>\n"),
        ("\\`  \n\n>  \n###### ~~`  a=\n\\- (_=[x]\n|+x*++x_^\n", "<p><code>  </code></p>\n\n<blockquote><br /></blockquote>\n<p>###### <del><code>  a=\n- (_=[x]\n|+x*++x_^</del></code></p>\n"),
        ("# \n\n>a\\![`=++\\*\n| ", "<h1></h1>\n\n<blockquote>a![<code>=++*</code></blockquote>\n<p>| </p>\n"),
        ("\\\\[ ]\n\n- - -)^~!\n>  ~\\\\[\n", "<p>\\<input type=\"checkbox\" disabled=\"disabled\" /></p>\n\n<ul><li>- -)<sup>~!\n&gt;  ~\\[</sup></li></ul>\n"),
        ("\\`]\\_", "<p><code>]_</code></p>\n"),
        ("# ++  \\![\\|\\* !~~\n    0. =]]\n\n\\> `_1 \n    0. !\\**\n-b[x] ~", "<h1><ins>  ![|* !<del></h1>\n</del></ins><ol><ol><li>=]]</li></ol></ol>\n\n<p>&gt; <code>_1 \n    0. !**\n-b[x] ~</code></p>\n"),
        ("```b|\\[^^\n\n```rs  [ ]\\|\n-!][`b", "<pre><code lang=\"b|\\[^^\">\n</code></pre>\n<ul><li>!][<code>b</code></li></ul>\n"),
        ("**>*+\\*\n|_$b_,_ _\\![~~ \\|==(*\n     \\![>a<\n| (\n```+ \n", "<p><strong>&gt;*+*\n|<em>$b</em>,<em> </em>![<del> |<mark>(*\n     ![&gt;a&lt;\n| (\n<code></code><code>+ </strong></del></mark></code></p>\n"),
        ("    - [x]_1~~\n\\| `\n><_++= `\n\\| [ ]`](\\<(\n0.a` ~0**", "<ul><ul><li><input type=\"checkbox\" disabled=\"disabled\" checked=\"checked\" /><em>1<del>\n| <code>\n&gt;&lt;_++= </code>\n| <input type=\"checkbox\" disabled=\"disabled\" /><code>](&lt;(</em></del></code></li></ul><li>a<code> ~0**</code></li></ul>\n"),
        ("-~~~`  ^~~\n### \\|===\n\n##### \n    - ==~[[x]`[a\n#**`1\n", "<ul><li><del>~<code>  ^~~\n### |===</del></code></li></ul>\n\n<h5></h5>\n<ul><ul><li><mark>~[[x]<code>[a\n#**</code>1</mark></li></ul></ul>\n"),
        ("|=[\\<<=^x0)\n", "<table><tbody><tr><th scope=\"col\" align=\"center\" valign=\"baseline\" colspan=\"1\" rowspan=\"1\">[&lt;&lt;=<sup>x0)</sup></th></tr></tbody></table>\n"),
        ("\\`**\n1. _0*\n#`^0\n\n", "<p><code>**\n1. _0*\n#</code><sup>0</sup></p>\n\n"),
        ("|\n```rs1*==__`=\n0.]`  ~ \\|>\n    ~=\\[+=\n", "<table><tbody><tr><td align=\"center\" valign=\"baseline\" colspan=\"1\" rowspan=\"1\"></td></tr></tbody></table>\n<p><code></code><code>rs1*==__</code>=\n0.]<code>  ~ |&gt;\n    ~=[+=</code></p>\n"),
        ("    \\*\n\\\\`  **[^*++x\n#### b\\*[ ]))\\![\n\\- ~~\\|[]\n| >x[~ \\\\\n", "<pre><code>\\*</code></pre>\n<p>\\<code>  **[^*++x\n#### b*[ ]))![\n- ~~|[]\n| &gt;x[~ \\</code></p>\n"),
        ("1. ^* \n\n\\\\_b=]|++\n|-^m2,3 \n\\\\_\n## \n", "<p>1. <sup>* </sup></p>\n\n<p>\\<em>b=]|<ins>\n|-<sup>m2,3 \n\\</em>\n## </ins></sup></p>\n"),
        ("|-^m2,3 >`)0**|+ \n\\0.  ~\n\n0. ++****`[x]==\n", "<table><tbody><tr><th scope=\"row\" align=\"left\" valign=\"middle\" colspan=\"2\" rowspan=\"3\">&gt;<code>)0**|+ </code></th></tr></tbody></table>\n<p>0.  ~</p>\n\n<ol><li><ins><strong></strong><code>[x]==</ins></code></li></ol>\n"),
        ("### ]]_*]**|\n|_$b_,_ ](`*+b~\n\\> ^`*](\\![\n) ~\\![0^_\n\n0(]([![x]", "<h3>]]<em>*]<strong>|</h3>\n</strong></em><table><tbody><tr><td align=\"right\" valign=\"bottom\" colspan=\"1\" rowspan=\"1\">](<code>*+b~</code></td></tr></tbody></table>\n<p>&gt; <sup><code>*](![\n) ~![0^_</code></sup></p>\n\n<p>0(]([![x]</p>\n"),
        ("    - => ~~\n|===`~\n\n\\0. ^~~[ ]  ](b0++\n", "<ul><ul><li>=&gt; <del>\n|<mark>=<code>~</del></mark></code></li></ul></ul>\n\n<p>0. <sup><del><input type=\"checkbox\" disabled=\"disabled\" />  ](b0<ins></del></ins></sup></p>\n"),
        (">[*_\n|-^m2,3 `\n\\# =`\n", "<blockquote>[*<em></em></blockquote>\n<p>|-<sup>m2,3 <code>\n# =</code></sup></p>\n"),
        ("    0. \n## 0x(<)|\n    0. )\\*\\|\n\\\\|*=)==_]\n# `1|\n", "<ol><ol><li>\n## 0x(&lt;)|</li><li>)*|\n\\|*=)<mark><em>]\n# <code>1|</em></mark></code></li></ol></ol>\n"),
        ("\n### \n##### \\<>`<\\|b=\n1.  ====\n######  \n\\> ~~>x\\*[\\[x(\n", "\n<h3></h3>\n<h5>&lt;&gt;<code>&lt;|b=</h5>\n</code><p>1.  <mark></mark>\n######<br />\n&gt; <del>&gt;x*[[x(</del></p>\n"),
        ("-`]\\~  \n\\` ~\\|~_ \n\n ++  (\n## \\|1[===\\**](\n", "<ul><li><code>]~  \n` ~|~_ </code></li></ul>\n\n<p> <ins>  (\n## |1[<mark>=**](</ins></mark></p>\n"),
        ("\\0. 0\n> \\[)[_(`\\\\\n>+^]~\n\\- \\\\[\n", "<p>0. 0\n&gt; [)[<em>(<code>\\\n&gt;+^]~\n- \\[</em></code></p>\n"),
        ("#*~b``+\n\\# +b(!^**`", "<h1>*~b<code></code>+</h1>\n<p># +b(!<sup><strong><code></strong></code></sup></p>\n"),
    ];
    for (text, html) in cases {
        assert_eq!(*html, Parser::parse_str(text), "for {text:?}");
    }
}
