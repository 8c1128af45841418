//! Whole runs: from a grammar file to the files of a parser.

use bison::codegen::CodeGenerator;
use bison::grammar::Grammar;
use bison::lexer::YaccParser;
use bison::report::generate_verbose_output;
use bison::tables::TableGenerator;

const CALC_GRAMMAR: &str = r##"%{
#include <ctype.h>
%}
%union { int num; char *str; }
%token <num> NUM 300
%token IF ELSE
%left '+' '-'
%left '*'
%right POW
%nonassoc '<'
%type <num> expr
%start prog
%expect 1
%defines "calc.h"
%verbose
%define api.pure full
/* comment { */ // line comment
%%
prog: /* empty */
    | prog stmt ';' { printf("%d\n", $2); }
    ;
stmt: IF expr stmt
    | IF expr stmt ELSE stmt { $$ = $<num>2 ? $3 : $<num>5; }
    | expr
    ;
expr: expr '+' expr { $$ = $1 + $3; }
    | expr '-' expr { $$ = $1 - $3; @$ = @1; }
    | expr '*' expr
    | expr POW expr
    | expr '<' expr
    | '-' expr %prec POW { $$ = -$2; }
    | '(' { begin("}"); } expr ')' { $$ = $3; }
    | NUM
    | '\n' OTHER
    ;
%%
int main(void) { return yyparse(); }
"##;

const CALC_SOURCE: &str = r##"/* A Bison-like parser, generated by rust-bison.  */

#include <stdio.h>
#include <stdlib.h>
#include <string.h>

/* Prologue */

#include <ctype.h>


/* Token definitions */
#ifndef YYTOKENTYPE
#define YYTOKENTYPE
enum yytokentype {
  NUM = 300,
  IF = 301,
  ELSE = 302,
  POW = 303,
  OTHER = 304,
};
#endif

#define NUM 300
#define IF 301
#define ELSE 302
#define POW 303
#define OTHER 304

#ifndef YYSTYPE
typedef union YYSTYPE {
 int num; char *str; 
} YYSTYPE;
#define YYSTYPE YYSTYPE
#endif

static const short yyr2[] = {
  2, 0, 3, 3, 5, 1, 3, 3, 3, 3, 3, 2, 0, 4, 1, 2
};

static const short yyr1[] = {
  0, 1, 1, 2, 2, 2, 3, 3, 3, 3, 3, 3, 4, 3, 3, 3
};

#define YYNTOKENS 14
#define YYNSTATES 32
#define YYNRULES 16
#define YYNNONTERMS 5

/* Terminal symbol token values */
static const int yytoken_values[] = {
  0, 300, 301, 302, 43, 45, 42, 303, 60, 59, 40, 41, 10, 304
};

static const int yyaction[][14] = {
  { -2, -2, -2, -2147483648, -2147483648, -2, -2147483648, -2147483648, -2147483648, -2147483648, -2, -2147483648, -2, -2147483648 },
  { 3, 4, 5, -2147483648, -2147483648, 6, -2147483648, -2147483648, -2147483648, -2147483648, 9, -2147483648, 10, -2147483648 },
  { 0, -2147483648, -2147483648, -2147483648, -2147483648, -2147483648, -2147483648, -2147483648, -2147483648, -2147483648, -2147483648, -2147483648, -2147483648, -2147483648 },
  { -2147483648, -15, -15, -15, -15, -15, -15, -15, -15, -15, -15, -15, -15, -2147483648 },
  { -2147483648, 4, -2147483648, -2147483648, -2147483648, 6, -2147483648, -2147483648, -2147483648, -2147483648, 9, -2147483648, 10, -2147483648 },
  { -2147483648, 4, -2147483648, -2147483648, -2147483648, 6, -2147483648, -2147483648, -2147483648, -2147483648, 9, -2147483648, 10, -2147483648 },
  { -2147483648, -2147483648, -2147483648, -6, 13, 14, 15, 16, 17, -6, -2147483648, -2147483648, -2147483648, -2147483648 },
  { -2147483648, -2147483648, -2147483648, -2147483648, -2147483648, -2147483648, -2147483648, -2147483648, -2147483648, 18, -2147483648, -2147483648, -2147483648, -2147483648 },
  { -2147483648, -13, -2147483648, -2147483648, -2147483648, -13, -2147483648, -2147483648, -2147483648, -2147483648, -13, -2147483648, -13, -2147483648 },
  { -2147483648, -2147483648, -2147483648, -2147483648, -2147483648, -2147483648, -2147483648, -2147483648, -2147483648, -2147483648, -2147483648, -2147483648, -2147483648, 20 },
  { -2147483648, 4, 5, -2147483648, 13, 21, 15, 16, 17, -2147483648, 9, -2147483648, 10, -2147483648 },
  { -2147483648, -12, -12, -12, -12, -12, -12, 16, 17, -12, -12, -12, -12, -2147483648 },
  { -2147483648, 4, -2147483648, -2147483648, -2147483648, 6, -2147483648, -2147483648, -2147483648, -2147483648, 9, -2147483648, 10, -2147483648 },
  { -2147483648, 4, -2147483648, -2147483648, -2147483648, 6, -2147483648, -2147483648, -2147483648, -2147483648, 9, -2147483648, 10, -2147483648 },
  { -2147483648, 4, -2147483648, -2147483648, -2147483648, 6, -2147483648, -2147483648, -2147483648, -2147483648, 9, -2147483648, 10, -2147483648 },
  { -2147483648, 4, -2147483648, -2147483648, -2147483648, 6, -2147483648, -2147483648, -2147483648, -2147483648, 9, -2147483648, 10, -2147483648 },
  { -2147483648, 4, -2147483648, -2147483648, -2147483648, 6, -2147483648, -2147483648, -2147483648, -2147483648, 9, -2147483648, 10, -2147483648 },
  { -3, -3, -3, -2147483648, -2147483648, -3, -2147483648, -2147483648, -2147483648, -2147483648, -3, -2147483648, -3, -2147483648 },
  { -2147483648, 4, -2147483648, -2147483648, -2147483648, 6, -2147483648, -2147483648, -2147483648, -2147483648, 9, -2147483648, 10, -2147483648 },
  { -2147483648, -16, -16, -16, -16, -16, -16, -16, -16, -16, -16, -16, -16, -2147483648 },
  { -2147483648, 4, -2147483648, -2147483648, -2147483648, 6, -2147483648, -2147483648, -2147483648, -2147483648, 9, -2147483648, 10, -2147483648 },
  { -2147483648, -2147483648, -2147483648, 30, -2147483648, -2147483648, -2147483648, -2147483648, -2147483648, -4, -2147483648, -2147483648, -2147483648, -2147483648 },
  { -2147483648, -7, -7, -7, -7, -7, 15, 16, 17, -7, -7, -7, -7, -2147483648 },
  { -2147483648, -8, -8, -8, -8, -8, 15, 16, 17, -8, -8, -8, -8, -2147483648 },
  { -2147483648, -9, -9, -9, -9, -9, -9, 16, 17, -9, -9, -9, -9, -2147483648 },
  { -2147483648, -10, -10, -10, -10, -10, -10, 16, 17, -10, -10, -10, -10, -2147483648 },
  { -2147483648, -11, -11, -11, -11, -11, -11, -11, -2147483648, -11, -11, -11, -11, -2147483648 },
  { -2147483648, -2147483648, -2147483648, -2147483648, 13, 14, 15, 16, 17, -2147483648, -2147483648, 31, -2147483648, -2147483648 },
  { -2147483648, -8, -8, -8, -8, -8, -12, 16, 17, -8, -8, -8, -8, -2147483648 },
  { -2147483648, 4, 5, -2147483648, -2147483648, 6, -2147483648, -2147483648, -2147483648, -2147483648, 9, -2147483648, 10, -2147483648 },
  { -2147483648, -14, -14, -14, -14, -14, -14, -14, -14, -14, -14, -14, -14, -2147483648 },
  { -2147483648, -2147483648, -2147483648, -5, -2147483648, -2147483648, -2147483648, -2147483648, -2147483648, -5, -2147483648, -2147483648, -2147483648, -2147483648 },
};

static const int yygoto[][5] = {
  { -1, 1, -1, -1, -1 },
  { -1, -1, 7, 6, -1 },
  { -1, -1, -1, -1, -1 },
  { -1, -1, -1, -1, -1 },
  { -1, -1, -1, 10, -1 },
  { -1, -1, -1, 11, -1 },
  { -1, -1, -1, -1, -1 },
  { -1, -1, -1, -1, -1 },
  { -1, -1, -1, -1, 18 },
  { -1, -1, -1, -1, -1 },
  { -1, -1, 21, 6, -1 },
  { -1, -1, -1, -1, -1 },
  { -1, -1, -1, 22, -1 },
  { -1, -1, -1, 23, -1 },
  { -1, -1, -1, 24, -1 },
  { -1, -1, -1, 25, -1 },
  { -1, -1, -1, 26, -1 },
  { -1, -1, -1, -1, -1 },
  { -1, -1, -1, 27, -1 },
  { -1, -1, -1, -1, -1 },
  { -1, -1, -1, 28, -1 },
  { -1, -1, -1, -1, -1 },
  { -1, -1, -1, -1, -1 },
  { -1, -1, -1, -1, -1 },
  { -1, -1, -1, -1, -1 },
  { -1, -1, -1, -1, -1 },
  { -1, -1, -1, -1, -1 },
  { -1, -1, -1, -1, -1 },
  { -1, -1, -1, -1, -1 },
  { -1, -1, 31, 6, -1 },
  { -1, -1, -1, -1, -1 },
  { -1, -1, -1, -1, -1 },
};

YYSTYPE yylval;

typedef struct YYLTYPE {
  int first_line;
  int first_column;
  int last_line;
  int last_column;
} YYLTYPE;

int yylex(void);
void yyerror(const char *s);

static int yytoken_to_index(int token) {
  int i;
  for (i = 0; i < YYNTOKENS; i++) {
    if (yytoken_values[i] == token) return i;
  }
  return -1;
}

#ifndef YYMAXDEPTH
#define YYMAXDEPTH 10000
#endif
#ifndef YYINITDEPTH
#define YYINITDEPTH 200
#endif

int yyparse(void) {
  int yystate = 0;
  int yychar = -1; /* empty */
  int yynerrs = 0;
  int yyn, yylen, yyidx;
  int yyss[YYMAXDEPTH];
  YYSTYPE yyvs[YYMAXDEPTH];
  int yyssp = 0;
  YYSTYPE yyval;

  yyss[0] = 0;
  memset(&yyvs[0], 0, sizeof(YYSTYPE));

  for (;;) {
    if (yychar < 0) {
      yychar = yylex();
      if (yychar < 0) yychar = 0; /* EOF */
    }

    yyidx = yytoken_to_index(yychar);
    if (yyidx < 0) {
      goto yyerrlab;
    }

    yyn = yyaction[yystate][yyidx];

    if (yyn == 0) {
      return 0; /* accept */
    }

    if (yyn == -2147483648) {
      goto yyerrlab;
    }

    if (yyn > 0) {
      /* Shift */
      yyssp++;
      if (yyssp >= YYMAXDEPTH) {
        yyerror("parser stack overflow");
        return 2;
      }
      yystate = yyn - 1;
      yyss[yyssp] = yystate;
      yyvs[yyssp] = yylval;
      yychar = -1; /* consumed */
      continue;
    }

    /* Reduce */
    yyn = -(yyn + 1); /* rule number */
    yylen = yyr2[yyn];
    memset(&yyval, 0, sizeof(YYSTYPE));

    switch (yyn) {
    case 2:
#line 20 "input.y"
      {  printf("%d\n", yyvs[yyssp - yylen + 2]);  }
      break;
    case 3:
      yyval = yyvs[yyssp - yylen + 1];
      break;
    case 4:
#line 23 "input.y"
      {  yyval = yyvs[yyssp - yylen + 2] ? yyvs[yyssp - yylen + 3] : yyvs[yyssp - yylen + 5];  }
      break;
    case 5:
      yyval = yyvs[yyssp - yylen + 1];
      break;
    case 6:
#line 26 "input.y"
      {  yyval = yyvs[yyssp - yylen + 1] + yyvs[yyssp - yylen + 3];  }
      break;
    case 7:
#line 27 "input.y"
      {  yyval = yyvs[yyssp - yylen + 1] - yyvs[yyssp - yylen + 3]; yyloc = yylsp[yyssp - yylen + 1];  }
      break;
    case 8:
      yyval = yyvs[yyssp - yylen + 1];
      break;
    case 9:
      yyval = yyvs[yyssp - yylen + 1];
      break;
    case 10:
      yyval = yyvs[yyssp - yylen + 1];
      break;
    case 11:
#line 31 "input.y"
      {  yyval = -yyvs[yyssp - yylen + 2];  }
      break;
    case 12:
#line 32 "input.y"
      {  begin("}");  }
      break;
    case 13:
#line 32 "input.y"
      {  yyval = yyvs[yyssp - yylen + 3];  }
      break;
    case 14:
      yyval = yyvs[yyssp - yylen + 1];
      break;
    case 15:
      yyval = yyvs[yyssp - yylen + 1];
      break;
    default: break;
    }

    yyssp -= yylen;
    yystate = yyss[yyssp];
    { int nt = yyr1[yyn];
      int newstate = yygoto[yystate][nt];
      if (newstate < 0) goto yyerrlab;
      yyssp++;
      yystate = newstate;
      yyss[yyssp] = yystate;
      yyvs[yyssp] = yyval;
    }
  }

yyerrlab:
  yyerror("syntax error");
  yynerrs++;
  return 1;
}

/* Epilogue */

int main(void) { return yyparse(); }
"##;

const CALC_HEADER: &str = r##"#ifndef YY_TAB_H
#define YY_TAB_H

/* Token definitions */
#ifndef YYTOKENTYPE
#define YYTOKENTYPE
enum yytokentype {
  NUM = 300,
  IF = 301,
  ELSE = 302,
  POW = 303,
  OTHER = 304,
};
#endif

#define NUM 300
#define IF 301
#define ELSE 302
#define POW 303
#define OTHER 304

#ifndef YYSTYPE
typedef union YYSTYPE {
 int num; char *str; 
} YYSTYPE;
#define YYSTYPE YYSTYPE
#endif

extern YYSTYPE yylval;

#endif /* YY_TAB_H */
"##;

const CALC_REPORT: &str = r##"Grammar

     0 $accept: prog $end
     1 prog: /* empty */
     2 prog: prog stmt ';'
     3 stmt: IF expr stmt
     4 stmt: IF expr stmt ELSE stmt
     5 stmt: expr
     6 expr: expr '+' expr
     7 expr: expr '-' expr
     8 expr: expr '*' expr
     9 expr: expr POW expr
    10 expr: expr '<' expr
    11 expr: '-' expr
    12 @11: /* empty */
    13 expr: '(' @11 expr ')'
    14 expr: NUM
    15 expr: '\n' OTHER

Terminals, with rules where they appear

  $end (0) 0
  NUM (300) 14
  IF (301) 3 4
  ELSE (302) 4
  '+' (43) 6
  '-' (45) 7 11
  '*' (42) 8
  POW (303) 9
  '<' (60) 10
  ';' (59) 2
  '(' (40) 13
  ')' (41) 13
  '\n' (10) 15
  OTHER (304) 15

Nonterminals, with rules where they appear

  expr (on left: 6 7 8 9 10 11 13 14 15, on right: 3 4 5 6 6 7 7 8 8 9 9 10 10 11 13)
  prog (on left: 1 2, on right: 0 2)
  stmt (on left: 3 4 5, on right: 2 3 4 4)
  @11 (on left: 12, on right: 13)
  $accept (on left: 0, on right:)


State 0

     0 $accept: . prog $end
     1 prog:  .
     2 prog: . prog stmt ';'

    $end  reduce using rule 1
    NUM  reduce using rule 1
    IF  reduce using rule 1
    '-'  reduce using rule 1
    '('  reduce using rule 1
    '\n'  reduce using rule 1
    prog  go to state 1

State 1

     0 $accept: prog . $end
     2 prog: prog . stmt ';'
     3 stmt: . IF expr stmt
     4 stmt: . IF expr stmt ELSE stmt
     5 stmt: . expr
     6 expr: . expr '+' expr
     7 expr: . expr '-' expr
     8 expr: . expr '*' expr
     9 expr: . expr POW expr
    10 expr: . expr '<' expr
    11 expr: . '-' expr
    13 expr: . '(' @11 expr ')'
    14 expr: . NUM
    15 expr: . '\n' OTHER

    $end  shift, and go to state 2
    NUM  shift, and go to state 3
    IF  shift, and go to state 4
    '-'  shift, and go to state 5
    '('  shift, and go to state 8
    '\n'  shift, and go to state 9
    expr  go to state 6
    stmt  go to state 7

State 2

     0 $accept: prog $end .

    $end  accept

State 3

    14 expr: NUM .

    NUM  reduce using rule 14
    IF  reduce using rule 14
    ELSE  reduce using rule 14
    '+'  reduce using rule 14
    '-'  reduce using rule 14
    '*'  reduce using rule 14
    POW  reduce using rule 14
    '<'  reduce using rule 14
    ';'  reduce using rule 14
    '('  reduce using rule 14
    ')'  reduce using rule 14
    '\n'  reduce using rule 14

State 4

     3 stmt: IF . expr stmt
     4 stmt: IF . expr stmt ELSE stmt
     6 expr: . expr '+' expr
     7 expr: . expr '-' expr
     8 expr: . expr '*' expr
     9 expr: . expr POW expr
    10 expr: . expr '<' expr
    11 expr: . '-' expr
    13 expr: . '(' @11 expr ')'
    14 expr: . NUM
    15 expr: . '\n' OTHER

    NUM  shift, and go to state 3
    '-'  shift, and go to state 5
    '('  shift, and go to state 8
    '\n'  shift, and go to state 9
    expr  go to state 10

State 5

     6 expr: . expr '+' expr
     7 expr: . expr '-' expr
     8 expr: . expr '*' expr
     9 expr: . expr POW expr
    10 expr: . expr '<' expr
    11 expr: . '-' expr
    11 expr: '-' . expr
    13 expr: . '(' @11 expr ')'
    14 expr: . NUM
    15 expr: . '\n' OTHER

    NUM  shift, and go to state 3
    '-'  shift, and go to state 5
    '('  shift, and go to state 8
    '\n'  shift, and go to state 9
    expr  go to state 11

State 6

     5 stmt: expr .
     6 expr: expr . '+' expr
     7 expr: expr . '-' expr
     8 expr: expr . '*' expr
     9 expr: expr . POW expr
    10 expr: expr . '<' expr

    ELSE  reduce using rule 5
    '+'  shift, and go to state 12
    '-'  shift, and go to state 13
    '*'  shift, and go to state 14
    POW  shift, and go to state 15
    '<'  shift, and go to state 16
    ';'  reduce using rule 5

State 7

     2 prog: prog stmt . ';'

    ';'  shift, and go to state 17

State 8

    12 @11:  .
    13 expr: '(' . @11 expr ')'

    NUM  reduce using rule 12
    '-'  reduce using rule 12
    '('  reduce using rule 12
    '\n'  reduce using rule 12
    @11  go to state 18

State 9

    15 expr: '\n' . OTHER

    OTHER  shift, and go to state 19

State 10

     3 stmt: . IF expr stmt
     3 stmt: IF expr . stmt
     4 stmt: . IF expr stmt ELSE stmt
     4 stmt: IF expr . stmt ELSE stmt
     5 stmt: . expr
     6 expr: . expr '+' expr
     6 expr: expr . '+' expr
     7 expr: . expr '-' expr
     7 expr: expr . '-' expr
     8 expr: . expr '*' expr
     8 expr: expr . '*' expr
     9 expr: . expr POW expr
     9 expr: expr . POW expr
    10 expr: . expr '<' expr
    10 expr: expr . '<' expr
    11 expr: . '-' expr
    13 expr: . '(' @11 expr ')'
    14 expr: . NUM
    15 expr: . '\n' OTHER

    NUM  shift, and go to state 3
    IF  shift, and go to state 4
    '+'  shift, and go to state 12
    '-'  shift, and go to state 20
    '*'  shift, and go to state 14
    POW  shift, and go to state 15
    '<'  shift, and go to state 16
    '('  shift, and go to state 8
    '\n'  shift, and go to state 9
    expr  go to state 6
    stmt  go to state 21

State 11

     6 expr: expr . '+' expr
     7 expr: expr . '-' expr
     8 expr: expr . '*' expr
     9 expr: expr . POW expr
    10 expr: expr . '<' expr
    11 expr: '-' expr .

    NUM  reduce using rule 11
    IF  reduce using rule 11
    ELSE  reduce using rule 11
    '+'  reduce using rule 11
    '-'  reduce using rule 11
    '*'  reduce using rule 11
    POW  shift, and go to state 15
    '<'  shift, and go to state 16
    ';'  reduce using rule 11
    '('  reduce using rule 11
    ')'  reduce using rule 11
    '\n'  reduce using rule 11

State 12

     6 expr: . expr '+' expr
     6 expr: expr '+' . expr
     7 expr: . expr '-' expr
     8 expr: . expr '*' expr
     9 expr: . expr POW expr
    10 expr: . expr '<' expr
    11 expr: . '-' expr
    13 expr: . '(' @11 expr ')'
    14 expr: . NUM
    15 expr: . '\n' OTHER

    NUM  shift, and go to state 3
    '-'  shift, and go to state 5
    '('  shift, and go to state 8
    '\n'  shift, and go to state 9
    expr  go to state 22

State 13

     6 expr: . expr '+' expr
     7 expr: . expr '-' expr
     7 expr: expr '-' . expr
     8 expr: . expr '*' expr
     9 expr: . expr POW expr
    10 expr: . expr '<' expr
    11 expr: . '-' expr
    13 expr: . '(' @11 expr ')'
    14 expr: . NUM
    15 expr: . '\n' OTHER

    NUM  shift, and go to state 3
    '-'  shift, and go to state 5
    '('  shift, and go to state 8
    '\n'  shift, and go to state 9
    expr  go to state 23

State 14

     6 expr: . expr '+' expr
     7 expr: . expr '-' expr
     8 expr: . expr '*' expr
     8 expr: expr '*' . expr
     9 expr: . expr POW expr
    10 expr: . expr '<' expr
    11 expr: . '-' expr
    13 expr: . '(' @11 expr ')'
    14 expr: . NUM
    15 expr: . '\n' OTHER

    NUM  shift, and go to state 3
    '-'  shift, and go to state 5
    '('  shift, and go to state 8
    '\n'  shift, and go to state 9
    expr  go to state 24

State 15

     6 expr: . expr '+' expr
     7 expr: . expr '-' expr
     8 expr: . expr '*' expr
     9 expr: . expr POW expr
     9 expr: expr POW . expr
    10 expr: . expr '<' expr
    11 expr: . '-' expr
    13 expr: . '(' @11 expr ')'
    14 expr: . NUM
    15 expr: . '\n' OTHER

    NUM  shift, and go to state 3
    '-'  shift, and go to state 5
    '('  shift, and go to state 8
    '\n'  shift, and go to state 9
    expr  go to state 25

State 16

     6 expr: . expr '+' expr
     7 expr: . expr '-' expr
     8 expr: . expr '*' expr
     9 expr: . expr POW expr
    10 expr: . expr '<' expr
    10 expr: expr '<' . expr
    11 expr: . '-' expr
    13 expr: . '(' @11 expr ')'
    14 expr: . NUM
    15 expr: . '\n' OTHER

    NUM  shift, and go to state 3
    '-'  shift, and go to state 5
    '('  shift, and go to state 8
    '\n'  shift, and go to state 9
    expr  go to state 26

State 17

     2 prog: prog stmt ';' .

    $end  reduce using rule 2
    NUM  reduce using rule 2
    IF  reduce using rule 2
    '-'  reduce using rule 2
    '('  reduce using rule 2
    '\n'  reduce using rule 2

State 18

     6 expr: . expr '+' expr
     7 expr: . expr '-' expr
     8 expr: . expr '*' expr
     9 expr: . expr POW expr
    10 expr: . expr '<' expr
    11 expr: . '-' expr
    13 expr: . '(' @11 expr ')'
    13 expr: '(' @11 . expr ')'
    14 expr: . NUM
    15 expr: . '\n' OTHER

    NUM  shift, and go to state 3
    '-'  shift, and go to state 5
    '('  shift, and go to state 8
    '\n'  shift, and go to state 9
    expr  go to state 27

State 19

    15 expr: '\n' OTHER .

    NUM  reduce using rule 15
    IF  reduce using rule 15
    ELSE  reduce using rule 15
    '+'  reduce using rule 15
    '-'  reduce using rule 15
    '*'  reduce using rule 15
    POW  reduce using rule 15
    '<'  reduce using rule 15
    ';'  reduce using rule 15
    '('  reduce using rule 15
    ')'  reduce using rule 15
    '\n'  reduce using rule 15

State 20

     6 expr: . expr '+' expr
     7 expr: . expr '-' expr
     7 expr: expr '-' . expr
     8 expr: . expr '*' expr
     9 expr: . expr POW expr
    10 expr: . expr '<' expr
    11 expr: . '-' expr
    11 expr: '-' . expr
    13 expr: . '(' @11 expr ')'
    14 expr: . NUM
    15 expr: . '\n' OTHER

    NUM  shift, and go to state 3
    '-'  shift, and go to state 5
    '('  shift, and go to state 8
    '\n'  shift, and go to state 9
    expr  go to state 28

State 21

     3 stmt: IF expr stmt .
     4 stmt: IF expr stmt . ELSE stmt

    ELSE  shift, and go to state 29
    ';'  reduce using rule 3

State 22

     6 expr: expr . '+' expr
     6 expr: expr '+' expr .
     7 expr: expr . '-' expr
     8 expr: expr . '*' expr
     9 expr: expr . POW expr
    10 expr: expr . '<' expr

    NUM  reduce using rule 6
    IF  reduce using rule 6
    ELSE  reduce using rule 6
    '+'  reduce using rule 6
    '-'  reduce using rule 6
    '*'  shift, and go to state 14
    POW  shift, and go to state 15
    '<'  shift, and go to state 16
    ';'  reduce using rule 6
    '('  reduce using rule 6
    ')'  reduce using rule 6
    '\n'  reduce using rule 6

State 23

     6 expr: expr . '+' expr
     7 expr: expr . '-' expr
     7 expr: expr '-' expr .
     8 expr: expr . '*' expr
     9 expr: expr . POW expr
    10 expr: expr . '<' expr

    NUM  reduce using rule 7
    IF  reduce using rule 7
    ELSE  reduce using rule 7
    '+'  reduce using rule 7
    '-'  reduce using rule 7
    '*'  shift, and go to state 14
    POW  shift, and go to state 15
    '<'  shift, and go to state 16
    ';'  reduce using rule 7
    '('  reduce using rule 7
    ')'  reduce using rule 7
    '\n'  reduce using rule 7

State 24

     6 expr: expr . '+' expr
     7 expr: expr . '-' expr
     8 expr: expr . '*' expr
     8 expr: expr '*' expr .
     9 expr: expr . POW expr
    10 expr: expr . '<' expr

    NUM  reduce using rule 8
    IF  reduce using rule 8
    ELSE  reduce using rule 8
    '+'  reduce using rule 8
    '-'  reduce using rule 8
    '*'  reduce using rule 8
    POW  shift, and go to state 15
    '<'  shift, and go to state 16
    ';'  reduce using rule 8
    '('  reduce using rule 8
    ')'  reduce using rule 8
    '\n'  reduce using rule 8

State 25

     6 expr: expr . '+' expr
     7 expr: expr . '-' expr
     8 expr: expr . '*' expr
     9 expr: expr . POW expr
     9 expr: expr POW expr .
    10 expr: expr . '<' expr

    NUM  reduce using rule 9
    IF  reduce using rule 9
    ELSE  reduce using rule 9
    '+'  reduce using rule 9
    '-'  reduce using rule 9
    '*'  reduce using rule 9
    POW  shift, and go to state 15
    '<'  shift, and go to state 16
    ';'  reduce using rule 9
    '('  reduce using rule 9
    ')'  reduce using rule 9
    '\n'  reduce using rule 9

State 26

     6 expr: expr . '+' expr
     7 expr: expr . '-' expr
     8 expr: expr . '*' expr
     9 expr: expr . POW expr
    10 expr: expr . '<' expr
    10 expr: expr '<' expr .

    NUM  reduce using rule 10
    IF  reduce using rule 10
    ELSE  reduce using rule 10
    '+'  reduce using rule 10
    '-'  reduce using rule 10
    '*'  reduce using rule 10
    POW  reduce using rule 10
    '<'  error
    ';'  reduce using rule 10
    '('  reduce using rule 10
    ')'  reduce using rule 10
    '\n'  reduce using rule 10

State 27

     6 expr: expr . '+' expr
     7 expr: expr . '-' expr
     8 expr: expr . '*' expr
     9 expr: expr . POW expr
    10 expr: expr . '<' expr
    13 expr: '(' @11 expr . ')'

    '+'  shift, and go to state 12
    '-'  shift, and go to state 13
    '*'  shift, and go to state 14
    POW  shift, and go to state 15
    '<'  shift, and go to state 16
    ')'  shift, and go to state 30

State 28

     6 expr: expr . '+' expr
     7 expr: expr . '-' expr
     7 expr: expr '-' expr .
     8 expr: expr . '*' expr
     9 expr: expr . POW expr
    10 expr: expr . '<' expr
    11 expr: '-' expr .

    NUM  reduce using rule 7
    IF  reduce using rule 7
    ELSE  reduce using rule 7
    '+'  reduce using rule 7
    '-'  reduce using rule 7
    '*'  reduce using rule 11
    POW  shift, and go to state 15
    '<'  shift, and go to state 16
    ';'  reduce using rule 7
    '('  reduce using rule 7
    ')'  reduce using rule 7
    '\n'  reduce using rule 7

State 29

     3 stmt: . IF expr stmt
     4 stmt: . IF expr stmt ELSE stmt
     4 stmt: IF expr stmt ELSE . stmt
     5 stmt: . expr
     6 expr: . expr '+' expr
     7 expr: . expr '-' expr
     8 expr: . expr '*' expr
     9 expr: . expr POW expr
    10 expr: . expr '<' expr
    11 expr: . '-' expr
    13 expr: . '(' @11 expr ')'
    14 expr: . NUM
    15 expr: . '\n' OTHER

    NUM  shift, and go to state 3
    IF  shift, and go to state 4
    '-'  shift, and go to state 5
    '('  shift, and go to state 8
    '\n'  shift, and go to state 9
    expr  go to state 6
    stmt  go to state 31

State 30

    13 expr: '(' @11 expr ')' .

    NUM  reduce using rule 13
    IF  reduce using rule 13
    ELSE  reduce using rule 13
    '+'  reduce using rule 13
    '-'  reduce using rule 13
    '*'  reduce using rule 13
    POW  reduce using rule 13
    '<'  reduce using rule 13
    ';'  reduce using rule 13
    '('  reduce using rule 13
    ')'  reduce using rule 13
    '\n'  reduce using rule 13

State 31

     4 stmt: IF expr stmt ELSE stmt .

    ELSE  reduce using rule 4
    ';'  reduce using rule 4
"##;

const TINY_GRAMMAR: &str = r##"%token A B
%%
s: A s B | ;
"##;

const TINY_SOURCE: &str = r##"/* A Bison-like parser, generated by rust-bison.  */

#include <stdio.h>
#include <stdlib.h>
#include <string.h>

/* Token definitions */
#ifndef YYTOKENTYPE
#define YYTOKENTYPE
enum yytokentype {
  A = 258,
  B = 259,
};
#endif

#define A 258
#define B 259

#ifndef YYSTYPE
typedef int YYSTYPE;
#define YYSTYPE YYSTYPE
#endif

static const short my_r2[] = {
  2, 3, 0
};

static const short my_r1[] = {
  0, 1, 1
};

#define MY_NTOKENS 3
#define MY_NSTATES 6
#define MY_NRULES 3
#define MY_NNONTERMS 2

/* Terminal symbol token values */
static const int my_token_values[] = {
  0, 258, 259
};

static const int my_action[][3] = {
  { -3, 2, -3 },
  { -3, 2, -3 },
  { 5, -2147483648, -2147483648 },
  { -2147483648, -2147483648, 6 },
  { 0, -2147483648, -2147483648 },
  { -2, -2147483648, -2 },
};

static const int my_goto[][2] = {
  { -1, 2 },
  { -1, 3 },
  { -1, -1 },
  { -1, -1 },
  { -1, -1 },
  { -1, -1 },
};

YYSTYPE my_lval;

typedef struct YYLTYPE {
  int first_line;
  int first_column;
  int last_line;
  int last_column;
} YYLTYPE;

int my_lex(void);
void my_error(const char *s);

static int my_token_to_index(int token) {
  int i;
  for (i = 0; i < MY_NTOKENS; i++) {
    if (my_token_values[i] == token) return i;
  }
  return -1;
}

#ifndef YYMAXDEPTH
#define YYMAXDEPTH 10000
#endif
#ifndef YYINITDEPTH
#define YYINITDEPTH 200
#endif

int my_parse(void) {
  int yystate = 0;
  int yychar = -1; /* empty */
  int yynerrs = 0;
  int yyn, yylen, yyidx;
  int yyss[YYMAXDEPTH];
  YYSTYPE yyvs[YYMAXDEPTH];
  int yyssp = 0;
  YYSTYPE yyval;

  yyss[0] = 0;
  memset(&yyvs[0], 0, sizeof(YYSTYPE));

  for (;;) {
    if (yychar < 0) {
      yychar = my_lex();
      if (yychar < 0) yychar = 0; /* EOF */
    }

    yyidx = my_token_to_index(yychar);
    if (yyidx < 0) {
      goto yyerrlab;
    }

    yyn = my_action[yystate][yyidx];

    if (yyn == 0) {
      return 0; /* accept */
    }

    if (yyn == -2147483648) {
      goto yyerrlab;
    }

    if (yyn > 0) {
      /* Shift */
      yyssp++;
      if (yyssp >= YYMAXDEPTH) {
        my_error("parser stack overflow");
        return 2;
      }
      yystate = yyn - 1;
      yyss[yyssp] = yystate;
      yyvs[yyssp] = my_lval;
      yychar = -1; /* consumed */
      continue;
    }

    /* Reduce */
    yyn = -(yyn + 1); /* rule number */
    yylen = my_r2[yyn];
    memset(&yyval, 0, sizeof(YYSTYPE));

    switch (yyn) {
    case 1:
      yyval = yyvs[yyssp - yylen + 1];
      break;
    default: break;
    }

    yyssp -= yylen;
    yystate = yyss[yyssp];
    { int nt = my_r1[yyn];
      int newstate = my_goto[yystate][nt];
      if (newstate < 0) goto yyerrlab;
      yyssp++;
      yystate = newstate;
      yyss[yyssp] = yystate;
      yyvs[yyssp] = yyval;
    }
  }

yyerrlab:
  my_error("syntax error");
  yynerrs++;
  return 1;
}
"##;

const TINY_HEADER: &str = r##"#ifndef MY__TAB_H
#define MY__TAB_H

/* Token definitions */
#ifndef YYTOKENTYPE
#define YYTOKENTYPE
enum yytokentype {
  A = 258,
  B = 259,
};
#endif

#define A 258
#define B 259

#ifndef YYSTYPE
typedef int YYSTYPE;
#define YYSTYPE YYSTYPE
#endif

extern YYSTYPE my_lval;

#endif /* MY__TAB_H */
"##;

const TINY_REPORT: &str = r##"Grammar

     0 $accept: s $end
     1 s: A s B
     2 s: /* empty */

Terminals, with rules where they appear

  $end (0) 0
  A (258) 1
  B (259) 1

Nonterminals, with rules where they appear

  s (on left: 1 2, on right: 0 1)
  $accept (on left: 0, on right:)


State 0

     0 $accept: . s $end
     1 s: . A s B
     2 s:  .

    $end  reduce using rule 2
    A  shift, and go to state 1
    B  reduce using rule 2
    s  go to state 2

State 1

     1 s: . A s B
     1 s: A . s B
     2 s:  .

    $end  reduce using rule 2
    A  shift, and go to state 1
    B  reduce using rule 2
    s  go to state 3

State 2

     0 $accept: s . $end

    $end  shift, and go to state 4

State 3

     1 s: A s . B

    B  shift, and go to state 5

State 4

     0 $accept: s $end .

    $end  accept

State 5

     1 s: A s B .

    $end  reduce using rule 1
    B  reduce using rule 1
"##;

fn read(text: &str) -> Grammar {
    let mut parser = YaccParser::new(text);
    assert!(parser.try_parse().is_ok());
    parser.grammar
}

fn files(text: &str, prefix: &str) -> (String, String, String, i32, i32) {
    let grammar = read(text);
    let mut table = TableGenerator::new(&grammar);
    assert!(table.try_generate());
    let code = CodeGenerator::new(&grammar, &table, prefix.to_string());
    (
        code.generate_source(),
        code.generate_header(),
        generate_verbose_output(&grammar, &table),
        table.sr_conflicts,
        table.rr_conflicts,
    )
}

#[test]
fn calc_source() {
    let (source, _, _, _, _) = files(CALC_GRAMMAR, "yy");
    assert_eq!(source, CALC_SOURCE);
}

#[test]
fn calc_header() {
    let (_, header, _, _, _) = files(CALC_GRAMMAR, "yy");
    assert_eq!(header, CALC_HEADER);
}

#[test]
fn calc_report() {
    let (_, _, report, _, _) = files(CALC_GRAMMAR, "yy");
    assert_eq!(report, CALC_REPORT);
}

#[test]
fn calc_conflicts() {
    let (_, _, _, sr, rr) = files(CALC_GRAMMAR, "yy");
    assert_eq!((sr, rr), (1, 9));
}

#[test]
fn tiny_source() {
    let (source, _, _, _, _) = files(TINY_GRAMMAR, "my_");
    assert_eq!(source, TINY_SOURCE);
}

#[test]
fn tiny_header() {
    let (_, header, _, _, _) = files(TINY_GRAMMAR, "my_");
    assert_eq!(header, TINY_HEADER);
}

#[test]
fn tiny_report() {
    let (_, _, report, _, _) = files(TINY_GRAMMAR, "my_");
    assert_eq!(report, TINY_REPORT);
}

#[test]
fn tiny_conflicts() {
    let (_, _, _, sr, rr) = files(TINY_GRAMMAR, "my_");
    assert_eq!((sr, rr), (0, 0));
}
